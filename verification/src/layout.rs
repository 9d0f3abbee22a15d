//! On-disk layout of the cookie manager.
//!
//! ```text
//! <app_data>/
//!   cookies/
//!     <root_domain>/
//!       _default.txt        # primary account (Netscape, yt-dlp consumable)
//!       <slug>.txt          # additional accounts
//!     _meta.json            # registry: alias, source, captured_at, platform_kind
//!     _trash/               # retention bin for cleared accounts
//! ```
//!
//! Paths are modelled as sequences of components. The first component of a
//! root is the application data directory, which the caller looks up; joining
//! the components in order with `Path::join` gives the path on disk.
use vstd::prelude::*;

use crate::text::{
    all_ascii, ascii_lower, ascii_normalize, lemma_ascii_lower, lemma_ascii_lower_char,
    lemma_trim_leading_dots, trim_leading_dots, chars_of, lowercase, normalize_host, normalized_host, push_char, push_signed_decimal,
    push_str, signed_decimal, text_of, to_lowercase,
};

verus! {

/// Slug of the primary account of a bucket.
pub const DEFAULT_SLUG: &'static str = "_default";

/// File name of the registry, under the cookies root.
pub const META_FILE: &'static str = "_meta.json";

/// A path as the sequence of its components.
#[derive(Debug)]
pub struct StoragePath {
    pub components: Vec<String>,
}

impl View for StoragePath {
    type V = Seq<Seq<char>>;

    open spec fn view(&self) -> Seq<Seq<char>> {
        self.components@.map_values(|s: String| s@)
    }
}

impl StoragePath {
    /// This path with `segment` appended as a last component.
    pub fn join(&self, segment: String) -> (r: StoragePath)
        ensures
            r@ == self@.push(segment@),
    {
        let mut components: Vec<String> = Vec::new();
        let mut i: usize = 0;
        while i < self.components.len()
            invariant
                i <= self.components@.len(),
                components@.len() == i,
                forall|j: int| 0 <= j < i ==> components@[j]@ == self.components@[j]@,
            decreases self.components@.len() - i,
        {
            let c = self.components[i].clone();
            components.push(c);
            i = i + 1;
        }
        let ghost seg = segment@;
        components.push(segment);
        let r = StoragePath { components };
        assert(r@ =~= self@.push(seg));
        r
    }
}

/// ASCII letters and digits (`char::is_ascii_alphanumeric`).
pub open spec fn is_ascii_alnum(c: char) -> bool {
    ('a' <= c && c <= 'z') || ('A' <= c && c <= 'Z') || ('0' <= c && c <= '9')
}

/// Characters kept as they are in a domain directory name.
pub open spec fn domain_safe(c: char) -> bool {
    is_ascii_alnum(c) || c == '.' || c == '-' || c == '_'
}

/// Characters kept as they are in an account slug.
pub open spec fn slug_safe(c: char) -> bool {
    is_ascii_alnum(c) || c == '-' || c == '_'
}

/// Every unsafe character of a normalized domain replaced by `'_'`.
pub open spec fn domain_segment_chars(h: Seq<char>) -> Seq<char> {
    h.map_values(|c: char| if domain_safe(c) { c } else { '_' })
}

/// Every unsafe character of a lowercased slug replaced by `'-'`, or
/// `_default` when nothing is left.
pub open spec fn slug_segment_chars(l: Seq<char>) -> Seq<char> {
    if l.len() == 0 {
        DEFAULT_SLUG@
    } else {
        l.map_values(|c: char| if slug_safe(c) { c } else { '-' })
    }
}

/// Directory name of the bucket of `domain`.
pub open spec fn domain_segment(domain: Seq<char>) -> Seq<char> {
    domain_segment_chars(normalize_host(domain))
}

/// File stem of the account `slug`.
pub open spec fn slug_segment(slug: Seq<char>) -> Seq<char> {
    slug_segment_chars(lowercase(slug))
}

/// The cookies root under an application data directory (`.` when unknown).
pub open spec fn cookies_root_path(app_data_dir: Option<Seq<char>>) -> Seq<Seq<char>> {
    seq![
        match app_data_dir {
            Some(d) => d,
            None => "."@,
        },
        "cookies"@,
    ]
}

pub open spec fn bucket_path(root: Seq<Seq<char>>, domain: Seq<char>) -> Seq<Seq<char>> {
    root.push(domain_segment(domain))
}

pub open spec fn account_path(root: Seq<Seq<char>>, domain: Seq<char>, slug: Seq<char>) -> Seq<
    Seq<char>,
> {
    bucket_path(root, domain).push(slug_segment(slug) + ".txt"@)
}

/// Name of the file that an account gets in the trash bin.
pub open spec fn trash_name(domain: Seq<char>, slug: Seq<char>, stamp: int) -> Seq<char> {
    domain_segment(domain) + "__"@ + slug_segment(slug) + "__"@ + signed_decimal(stamp) + ".txt"@
}

fn is_ascii_alphanumeric(c: char) -> (r: bool)
    ensures
        r == is_ascii_alnum(c),
{
    ('a' <= c && c <= 'z') || ('A' <= c && c <= 'Z') || ('0' <= c && c <= '9')
}

/// Replaces every character of a normalized domain that is not an ASCII
/// letter, digit, `.`, `-` or `_` by `_`.
pub fn domain_segment_of_normalized(h: &str) -> (r: String)
    ensures
        r@ == domain_segment_chars(h@),
{
    let v = chars_of(h);
    let mut out = String::new();
    let mut i: usize = 0;
    while i < v.len()
        invariant
            i <= v@.len(),
            out@ == v@.take(i as int).map_values(|c: char| if domain_safe(c) { c } else { '_' }),
        decreases v@.len() - i,
    {
        let c = v[i];
        if is_ascii_alphanumeric(c) || c == '.' || c == '-' || c == '_' {
            push_char(&mut out, c);
        } else {
            push_char(&mut out, '_');
        }
        i = i + 1;
        assert(out@ =~= v@.take(i as int).map_values(
            |c: char| if domain_safe(c) { c } else { '_' },
        ));
    }
    assert(v@.take(v@.len() as int) =~= v@);
    out
}

/// Replaces every character of a lowercased slug that is not an ASCII
/// letter, digit, `-` or `_` by `-`; an empty slug becomes `_default`.
pub fn slug_segment_of_lowered(l: &str) -> (r: String)
    ensures
        r@ == slug_segment_chars(l@),
{
    let v = chars_of(l);
    if v.len() == 0 {
        let mut d = String::new();
        push_str(&mut d, DEFAULT_SLUG);
        assert(d@ =~= DEFAULT_SLUG@);
        return d;
    }
    let mut out = String::new();
    let mut i: usize = 0;
    while i < v.len()
        invariant
            i <= v@.len(),
            out@ == v@.take(i as int).map_values(|c: char| if slug_safe(c) { c } else { '-' }),
        decreases v@.len() - i,
    {
        let c = v[i];
        if is_ascii_alphanumeric(c) || c == '-' || c == '_' {
            push_char(&mut out, c);
        } else {
            push_char(&mut out, '-');
        }
        i = i + 1;
        assert(out@ =~= v@.take(i as int).map_values(
            |c: char| if slug_safe(c) { c } else { '-' },
        ));
    }
    assert(v@.take(v@.len() as int) =~= v@);
    out
}

/// Directory name for a domain: leading dots trimmed, lowercased, and every
/// character other than ASCII letters, digits, `.`, `-`, `_` replaced by `_`.
pub fn safe_domain_segment(domain: &str) -> (r: String)
    ensures
        r@ == domain_segment(domain@),
        all_ascii(domain@) ==> r@ == domain_segment_chars(ascii_normalize(domain@)),
{
    let h = normalized_host(domain);
    domain_segment_of_normalized(h.as_str())
}

/// File stem for a slug: lowercased, every character other than ASCII
/// letters, digits, `-`, `_` replaced by `-`, and `_default` when empty.
pub fn safe_slug_segment(slug: &str) -> (r: String)
    ensures
        r@ == slug_segment(slug@),
        all_ascii(slug@) ==> r@ == slug_segment_chars(ascii_lower(slug@)),
{
    let l = to_lowercase(slug);
    slug_segment_of_lowered(l.as_str())
}

/// `<app_data>/cookies`, with `.` standing for an unknown data directory.
pub fn cookies_root(app_data_dir: Option<String>) -> (r: StoragePath)
    ensures
        r@ == cookies_root_path(
            match app_data_dir {
                Some(d) => Some(d@),
                None => None,
            },
        ),
{
    let base = match app_data_dir {
        Some(d) => d,
        None => text_of("."),
    };
    let mut components: Vec<String> = Vec::new();
    components.push(base);
    components.push(text_of("cookies"));
    let r = StoragePath { components };
    assert(r@ =~= cookies_root_path(
        match app_data_dir {
            Some(d) => Some(d@),
            None => None,
        },
    ));
    r
}

/// The bucket directory of `domain` under the cookies root.
pub fn bucket_dir(root: &StoragePath, domain: &str) -> (r: StoragePath)
    ensures
        r@ == bucket_path(root@, domain@),
{
    root.join(safe_domain_segment(domain))
}

/// The Netscape file of account `slug` in the bucket of `domain`.
pub fn account_file(root: &StoragePath, domain: &str, slug: &str) -> (r: StoragePath)
    ensures
        r@ == account_path(root@, domain@, slug@),
{
    let mut name = safe_slug_segment(slug);
    push_str(&mut name, ".txt");
    bucket_dir(root, domain).join(name)
}

/// The registry file under the cookies root.
pub fn meta_path(root: &StoragePath) -> (r: StoragePath)
    ensures
        r@ == root@.push(META_FILE@),
{
    root.join(text_of(META_FILE))
}

/// The trash bin under the cookies root.
pub fn trash_dir(root: &StoragePath) -> (r: StoragePath)
    ensures
        r@ == root@.push("_trash"@),
{
    root.join(text_of("_trash"))
}

/// The file that account files are read from when a consumer asks for a
/// bucket: the given slug, or the primary account when none is given. The
/// caller checks that it exists.
pub fn account_path_for_consumer(root: &StoragePath, domain: &str, slug: Option<&str>) -> (r:
    StoragePath)
    ensures
        r@ == account_path(
            root@,
            domain@,
            match slug {
                Some(s) => s@,
                None => DEFAULT_SLUG@,
            },
        ),
{
    let slug = match slug {
        Some(s) => s,
        None => DEFAULT_SLUG,
    };
    account_file(root, domain, slug)
}

/// Where a migrated legacy file is kept: `.migrated/<file name>` under the
/// cookies root, `legacy` standing for a path without a file name.
pub fn migrate_path(root: &StoragePath, file_name: Option<String>) -> (r: StoragePath)
    ensures
        r@ == root@.push(".migrated"@).push(
            match file_name {
                Some(f) => f@,
                None => "legacy"@,
            },
        ),
{
    let name = match file_name {
        Some(f) => f,
        None => text_of("legacy"),
    };
    root.join(text_of(".migrated")).join(name)
}

/// `<domain segment>__<slug segment>__<stamp>.txt`.
pub fn trash_file_name(domain: &str, slug: &str, stamp: i64) -> (r: String)
    ensures
        r@ == trash_name(domain@, slug@, stamp as int),
{
    let mut r = safe_domain_segment(domain);
    push_str(&mut r, "__");
    let s = safe_slug_segment(slug);
    push_str(&mut r, s.as_str());
    push_str(&mut r, "__");
    push_signed_decimal(&mut r, stamp);
    push_str(&mut r, ".txt");
    r
}

// ---------------------------------------------------------------------------
// Laws
// ---------------------------------------------------------------------------

/// A domain directory name holds only ASCII letters, digits, `.`, `-` and
/// `_`, and is as long as the normalized domain.
pub proof fn lemma_domain_segment_safe(domain: Seq<char>)
    ensures
        domain_segment(domain).len() == normalize_host(domain).len(),
        forall|i: int|
            0 <= i < domain_segment(domain).len() ==> domain_safe(#[trigger] domain_segment(domain)[i]),
{
}

/// A slug file stem is never empty and holds only ASCII letters, digits, `-`
/// and `_`: it cannot name a parent directory or hold a separator.
pub proof fn lemma_slug_segment_safe(slug: Seq<char>)
    ensures
        slug_segment(slug).len() > 0,
        forall|i: int|
            0 <= i < slug_segment(slug).len() ==> slug_safe(#[trigger] slug_segment(slug)[i]),
{
    reveal_strlit("_default");
}

/// The directory name of an all-ASCII domain has no upper-case letter and
/// does not start with a dot, so it is never `.` or `..`.
pub proof fn lemma_ascii_domain_segment_plain(domain: Seq<char>)
    ensures
        ({
            let seg = domain_segment_chars(ascii_normalize(domain));
            &&& seg.len() > 0 ==> seg[0] != '.'
            &&& forall|i: int| 0 <= i < seg.len() ==> !('A' <= #[trigger] seg[i] && seg[i] <= 'Z')
            &&& seg != "."@
            &&& seg != ".."@
        }),
{
    reveal_strlit(".");
    reveal_strlit("..");
    let t = trim_leading_dots(domain);
    lemma_trim_leading_dots(domain);
    lemma_ascii_lower(t);
    let n = ascii_lower(t);
    let seg = domain_segment_chars(n);
    if seg.len() > 0 {
        lemma_ascii_lower_char(t[0]);
        assert(n[0] == crate::text::ascii_lower_char(t[0]));
        assert(seg[0] != '.');
    }
    assert forall|i: int| 0 <= i < seg.len() implies !('A' <= #[trigger] seg[i] && seg[i] <= 'Z') by {
        assert(!('A' <= n[i] && n[i] <= 'Z'));
    }
}

/// The file stem of an all-ASCII slug has no upper-case letter.
pub proof fn lemma_ascii_slug_segment_plain(slug: Seq<char>)
    ensures
        forall|i: int|
            0 <= i < slug_segment_chars(ascii_lower(slug)).len() ==> !('A' <= #[trigger] slug_segment_chars(
                ascii_lower(slug),
            )[i] && slug_segment_chars(ascii_lower(slug))[i] <= 'Z'),
{
    reveal_strlit("_default");
    lemma_ascii_lower(slug);
    let l = ascii_lower(slug);
    let seg = slug_segment_chars(l);
    assert forall|i: int| 0 <= i < seg.len() implies !('A' <= #[trigger] seg[i] && seg[i] <= 'Z') by {
        if l.len() > 0 {
            assert(!('A' <= l[i] && l[i] <= 'Z'));
        }
    }
}

/// Whether `c` is an ASCII letter or digit, `-` or `_`.
pub open spec fn plain_slug_char(c: char) -> bool {
    ('a' <= c && c <= 'z') || ('A' <= c && c <= 'Z') || ('0' <= c && c <= '9') || c == '-' || c == '_'
}

/// The file stem of a non-empty lowered slug has the slug's length, keeps
/// every ASCII letter, digit, `-` and `_` at its place, and has `-` in place
/// of any other character; an empty slug gives `_default`. So two slugs made
/// only of such characters share a file only when they are equal.
pub proof fn lemma_slug_segment_keeps_plain_chars(l: Seq<char>)
    ensures
        l.len() == 0 ==> slug_segment_chars(l) == "_default"@,
        l.len() > 0 ==> slug_segment_chars(l).len() == l.len(),
        l.len() > 0 ==> forall|i: int|
            0 <= i < l.len() ==> (#[trigger] slug_segment_chars(l)[i] == if plain_slug_char(l[i]) {
                l[i]
            } else {
                '-'
            }),
        l.len() > 0 && (forall|i: int| 0 <= i < l.len() ==> plain_slug_char(#[trigger] l[i])) ==> slug_segment_chars(l)
            == l,
{
    if l.len() > 0 && (forall|i: int| 0 <= i < l.len() ==> plain_slug_char(#[trigger] l[i])) {
        assert(slug_segment_chars(l) =~= l);
    }
}

/// Whether `c` is an ASCII letter or digit, `.`, `-` or `_`.
pub open spec fn plain_domain_char(c: char) -> bool {
    plain_slug_char(c) || c == '.'
}

/// The directory name of a normalized domain has its length, keeps every
/// ASCII letter, digit, `.`, `-` and `_` at its place, and has `_` in place of
/// any other character.
pub proof fn lemma_domain_segment_keeps_plain_chars(h: Seq<char>)
    ensures
        domain_segment_chars(h).len() == h.len(),
        forall|i: int|
            0 <= i < h.len() ==> (#[trigger] domain_segment_chars(h)[i] == if plain_domain_char(h[i]) {
                h[i]
            } else {
                '_'
            }),
        (forall|i: int| 0 <= i < h.len() ==> plain_domain_char(#[trigger] h[i])) ==> domain_segment_chars(h) == h,
{
    if forall|i: int| 0 <= i < h.len() ==> plain_domain_char(#[trigger] h[i]) {
        assert(domain_segment_chars(h) =~= h);
    }
}

/// A slug of lower-case ASCII letters, digits, `-` and `_` names the account
/// file `<slug>.txt` unchanged.
pub proof fn lemma_plain_slug_file_name(slug: Seq<char>)
    requires
        slug.len() > 0,
        forall|i: int|
            0 <= i < slug.len() ==> (('a' <= #[trigger] slug[i] && slug[i] <= 'z') || ('0' <= slug[i] && slug[i] <= '9')
                || slug[i] == '-' || slug[i] == '_'),
    ensures
        slug_segment_chars(ascii_lower(slug)) == slug,
{
    assert(ascii_lower(slug) =~= slug) by {
        assert forall|i: int| 0 <= i < slug.len() implies ascii_lower(slug)[i] == slug[i] by {}
    }
    lemma_slug_segment_keeps_plain_chars(slug);
}

} // verus!
