//! Netscape cookie files, the format that yt-dlp reads: one cookie per line,
//! seven tab-separated fields, after a fixed header line.
use vstd::prelude::*;

use crate::text::{chars_of, clone_opt_string, decimal, push_char, push_chars, push_decimal, push_str};

verus! {

/// A cookie as the browser extension captured it.
#[derive(Debug)]
pub struct ExtensionCookie {
    pub domain: String,
    pub http_only: bool,
    pub path: String,
    pub secure: bool,
    /// Expiry in Unix seconds; `0` marks a session cookie.
    pub expires: i64,
    pub name: String,
    pub value: String,
    pub host_only: Option<bool>,
    pub same_site: Option<String>,
}

impl Clone for ExtensionCookie {
    fn clone(&self) -> (r: Self)
        ensures
            r == *self,
    {
        ExtensionCookie {
            domain: self.domain.clone(),
            http_only: self.http_only,
            path: self.path.clone(),
            secure: self.secure,
            expires: self.expires,
            name: self.name.clone(),
            value: self.value.clone(),
            host_only: self.host_only,
            same_site: clone_opt_string(&self.same_site),
        }
    }
}

/// How long, in seconds, a session cookie stays valid once written.
pub const SESSION_TTL_SECS: u64 = 86400;

/// The expiry written for session cookies when a file is written at Unix
/// second `now_secs`: one day later.
pub fn session_expiry(now_secs: u64) -> (r: u64)
    requires
        now_secs <= u64::MAX - SESSION_TTL_SECS,
    ensures
        r == now_secs + SESSION_TTL_SECS,
{
    now_secs + SESSION_TTL_SECS
}

/// The first line of every account file.
pub const NETSCAPE_HEADER: &'static str = "# Netscape HTTP Cookie File\n";

/// Characters that would break a field or a line.
pub open spec fn is_field_break(c: char) -> bool {
    c == '\n' || c == '\r' || c == '\t'
}

/// `s` without its newlines, carriage returns and tabs.
pub open spec fn sanitize(s: Seq<char>) -> Seq<char>
    decreases s.len(),
{
    if s.len() == 0 {
        s
    } else if is_field_break(s.last()) {
        sanitize(s.drop_last())
    } else {
        sanitize(s.drop_last()).push(s.last())
    }
}

/// Whether `s` starts with a dot.
pub open spec fn starts_with_dot(s: Seq<char>) -> bool {
    s.len() > 0 && s[0] == '.'
}

/// Whether the cookie is sent to its exact host only: as recorded, or else
/// when its (sanitized) domain has no leading dot.
pub open spec fn host_only_of(c: ExtensionCookie) -> bool {
    match c.host_only {
        Some(b) => b,
        None => !starts_with_dot(sanitize(c.domain@)),
    }
}

/// The domain field: without a leading dot for host-only cookies, with one
/// otherwise.
pub open spec fn domain_field(c: ExtensionCookie) -> Seq<char> {
    let raw = sanitize(c.domain@);
    if host_only_of(c) {
        if starts_with_dot(raw) {
            raw.drop_first()
        } else {
            raw
        }
    } else if starts_with_dot(raw) {
        raw
    } else {
        seq!['.'] + raw
    }
}

pub open spec fn flag(b: bool) -> Seq<char> {
    if b {
        "TRUE"@
    } else {
        "FALSE"@
    }
}

/// The expiry written for a cookie: `session_ttl` for session cookies, the
/// recorded expiry (as `u64`) otherwise.
pub open spec fn expiry_field(c: ExtensionCookie, session_ttl: u64) -> u64 {
    if c.expires == 0 {
        session_ttl
    } else {
        c.expires as u64
    }
}

/// The seven fields of a cookie's line, in Netscape order: domain (behind
/// `#HttpOnly_` for http-only cookies), include-subdomains flag, path, secure
/// flag, expiry, name, value.
pub open spec fn cookie_fields(c: ExtensionCookie, session_ttl: u64) -> Seq<Seq<char>> {
    seq![
        (if c.http_only { "#HttpOnly_"@ } else { Seq::<char>::empty() }) + domain_field(c),
        flag(!host_only_of(c)),
        sanitize(c.path@),
        flag(c.secure),
        decimal(expiry_field(c, session_ttl) as nat),
        sanitize(c.name@),
        sanitize(c.value@),
    ]
}

/// Fields joined by tabs.
pub open spec fn tab_join(fields: Seq<Seq<char>>) -> Seq<char>
    decreases fields.len(),
{
    if fields.len() == 0 {
        Seq::empty()
    } else if fields.len() == 1 {
        fields[0]
    } else {
        tab_join(fields.drop_last()) + seq!['\t'] + fields.last()
    }
}

/// The line of a cookie, newline included.
pub open spec fn cookie_line(c: ExtensionCookie, session_ttl: u64) -> Seq<char> {
    tab_join(cookie_fields(c, session_ttl)) + seq!['\n']
}

/// The lines of `cookies`, in order.
pub open spec fn cookie_lines(cookies: Seq<ExtensionCookie>, session_ttl: u64) -> Seq<char>
    decreases cookies.len(),
{
    if cookies.len() == 0 {
        Seq::empty()
    } else {
        cookie_lines(cookies.drop_last(), session_ttl) + cookie_line(cookies.last(), session_ttl)
    }
}

/// The content of an account file.
pub open spec fn account_file_content(cookies: Seq<ExtensionCookie>, session_ttl: u64) -> Seq<
    char,
> {
    NETSCAPE_HEADER@ + cookie_lines(cookies, session_ttl)
}

/// Appends `s` without its newlines, carriage returns and tabs.
fn push_sanitized(out: &mut String, s: &str)
    ensures
        final(out)@ == old(out)@ + sanitize(s@),
{
    let ghost start = out@;
    let v = chars_of(s);
    let mut i: usize = 0;
    while i < v.len()
        invariant
            i <= v@.len(),
            v@ == s@,
            out@ == start + sanitize(v@.take(i as int)),
        decreases v@.len() - i,
    {
        let c = v[i];
        if c != '\n' && c != '\r' && c != '\t' {
            push_char(out, c);
        }
        assert(v@.take(i + 1).drop_last() =~= v@.take(i as int));
        i = i + 1;
        assert(out@ =~= start + sanitize(v@.take(i as int)));
    }
    assert(v@.take(v@.len() as int) =~= v@);
}

/// `s` without newlines, carriage returns and tabs.
pub fn sanitize_field(s: &str) -> (r: String)
    ensures
        r@ == sanitize(s@),
{
    let mut r = String::new();
    push_sanitized(&mut r, s);
    assert(r@ =~= sanitize(s@));
    r
}

fn push_flag(out: &mut String, b: bool)
    ensures
        final(out)@ == old(out)@ + flag(b),
{
    if b {
        push_str(out, "TRUE");
    } else {
        push_str(out, "FALSE");
    }
}

/// The views of a vector of strings.
pub open spec fn views(v: Seq<String>) -> Seq<Seq<char>> {
    v.map_values(|s: String| s@)
}

/// Appends `fields` joined by tabs.
fn push_tab_joined(out: &mut String, fields: &Vec<String>)
    ensures
        final(out)@ == old(out)@ + tab_join(views(fields@)),
{
    let ghost start = out@;
    let mut i: usize = 0;
    while i < fields.len()
        invariant
            i <= fields@.len(),
            out@ == start + tab_join(views(fields@).take(i as int)),
        decreases fields@.len() - i,
    {
        if i > 0 {
            push_char(out, '\t');
        }
        push_str(out, fields[i].as_str());
        let ghost t = views(fields@).take(i + 1);
        assert(t.drop_last() =~= views(fields@).take(i as int));
        assert(t.last() == fields@[i as int]@);
        if i == 0 {
            assert(tab_join(views(fields@).take(0)) =~= Seq::<char>::empty());
        }
        i = i + 1;
        assert(out@ =~= start + tab_join(views(fields@).take(i as int)));
    }
    assert(views(fields@).take(fields@.len() as int) =~= views(fields@));
}

/// The first field of a cookie's line.
fn domain_column(c: &ExtensionCookie) -> (r: String)
    ensures
        r@ == (if c.http_only { "#HttpOnly_"@ } else { Seq::<char>::empty() }) + domain_field(*c),
{
    let mut out = String::new();
    let raw_domain = sanitize_field(c.domain.as_str());
    let raw = chars_of(raw_domain.as_str());
    let starts_dot = raw.len() > 0 && raw[0] == '.';
    let is_host_only = match c.host_only {
        Some(b) => b,
        None => !starts_dot,
    };
    if c.http_only {
        push_str(&mut out, "#HttpOnly_");
    }
    if is_host_only {
        if starts_dot {
            push_chars(&mut out, &raw, 1, raw.len());
            assert(raw@.subrange(1, raw@.len() as int) =~= raw@.drop_first());
        } else {
            push_chars(&mut out, &raw, 0, raw.len());
            assert(raw@.subrange(0, raw@.len() as int) =~= raw@);
        }
    } else {
        if !starts_dot {
            push_char(&mut out, '.');
        }
        push_chars(&mut out, &raw, 0, raw.len());
        assert(raw@.subrange(0, raw@.len() as int) =~= raw@);
    }
    assert(out@ =~= (if c.http_only { "#HttpOnly_"@ } else { Seq::<char>::empty() }) + domain_field(*c));
    out
}

fn flag_string(b: bool) -> (r: String)
    ensures
        r@ == flag(b),
{
    let mut r = String::new();
    push_flag(&mut r, b);
    assert(r@ =~= flag(b));
    r
}

/// Appends the line of `c` to `out`.
fn push_cookie_line(out: &mut String, c: &ExtensionCookie, session_ttl: u64)
    ensures
        final(out)@ == old(out)@ + cookie_line(*c, session_ttl),
{
    let raw_domain = sanitize_field(c.domain.as_str());
    let raw = chars_of(raw_domain.as_str());
    let starts_dot = raw.len() > 0 && raw[0] == '.';
    let is_host_only = match c.host_only {
        Some(b) => b,
        None => !starts_dot,
    };
    let expires: u64 = if c.expires == 0 {
        session_ttl
    } else {
        c.expires as u64
    };
    let mut expiry = String::new();
    push_decimal(&mut expiry, expires);
    let mut fields: Vec<String> = Vec::new();
    fields.push(domain_column(c));
    fields.push(flag_string(!is_host_only));
    fields.push(sanitize_field(c.path.as_str()));
    fields.push(flag_string(c.secure));
    fields.push(expiry);
    fields.push(sanitize_field(c.name.as_str()));
    fields.push(sanitize_field(c.value.as_str()));
    assert(views(fields@) =~= cookie_fields(*c, session_ttl));
    push_tab_joined(out, &fields);
    push_char(out, '\n');
}

/// The Netscape line of one cookie: domain (prefixed by `#HttpOnly_` for
/// http-only cookies), include-subdomains flag, path, secure flag, expiry,
/// name and value, tab-separated, with a closing newline. Session cookies
/// (expiry 0) get `session_ttl`.
pub fn format_cookie_line(c: &ExtensionCookie, session_ttl: u64) -> (r: String)
    ensures
        r@ == cookie_line(*c, session_ttl),
{
    let mut r = String::new();
    push_cookie_line(&mut r, c, session_ttl);
    assert(r@ =~= cookie_line(*c, session_ttl));
    r
}

/// The content of an account file holding `cookies`: the Netscape header,
/// then one line per cookie, in order.
pub fn render_account_file(cookies: &[ExtensionCookie], session_ttl: u64) -> (r: String)
    ensures
        r@ == account_file_content(cookies@, session_ttl),
{
    let mut r = String::new();
    push_str(&mut r, NETSCAPE_HEADER);
    let mut i: usize = 0;
    while i < cookies.len()
        invariant
            i <= cookies@.len(),
            r@ == NETSCAPE_HEADER@ + cookie_lines(cookies@.take(i as int), session_ttl),
        decreases cookies@.len() - i,
    {
        push_cookie_line(&mut r, &cookies[i], session_ttl);
        assert(cookies@.take(i + 1).drop_last() =~= cookies@.take(i as int));
        i = i + 1;
        assert(r@ =~= NETSCAPE_HEADER@ + cookie_lines(cookies@.take(i as int), session_ttl));
    }
    assert(cookies@.take(cookies@.len() as int) =~= cookies@);
    r
}


// ---------------------------------------------------------------------------
// Laws
// ---------------------------------------------------------------------------

/// Whether `s` holds no newline, carriage return or tab.
pub open spec fn unbroken(s: Seq<char>) -> bool {
    forall|i: int| 0 <= i < s.len() ==> !is_field_break(#[trigger] s[i])
}

/// A sanitized field holds no newline, carriage return or tab, and
/// sanitizing it again changes nothing.
pub proof fn lemma_sanitize_clean(s: Seq<char>)
    ensures
        unbroken(sanitize(s)),
        sanitize(sanitize(s)) == sanitize(s),
        sanitize(s).len() <= s.len(),
    decreases s.len(),
{
    if s.len() > 0 {
        lemma_sanitize_clean(s.drop_last());
        let r = sanitize(s.drop_last());
        if !is_field_break(s.last()) {
            let t = r.push(s.last());
            assert(t.drop_last() =~= r);
            assert(sanitize(t) == sanitize(r).push(s.last()));
        }
    }
}

/// Text without breaks is left as it is.
pub proof fn lemma_sanitize_unbroken(s: Seq<char>)
    requires
        unbroken(s),
    ensures
        sanitize(s) == s,
    decreases s.len(),
{
    if s.len() > 0 {
        assert(unbroken(s.drop_last())) by {
            assert forall|i: int| 0 <= i < s.drop_last().len() implies !is_field_break(
                #[trigger] s.drop_last()[i],
            ) by {
                assert(s.drop_last()[i] == s[i]);
            }
        }
        lemma_sanitize_unbroken(s.drop_last());
        assert(!is_field_break(s[s.len() - 1]));
        assert(s.drop_last().push(s.last()) =~= s);
    }
}

proof fn lemma_decimal_unbroken(n: nat)
    ensures
        unbroken(decimal(n)),
    decreases n,
{
    if n >= 10 {
        lemma_decimal_unbroken(n / 10);
    }
}

proof fn lemma_tab_join_lines(fields: Seq<Seq<char>>)
    requires
        forall|i: int| 0 <= i < fields.len() ==> unbroken(#[trigger] fields[i]),
    ensures
        forall|i: int|
            0 <= i < tab_join(fields).len() ==> tab_join(fields)[i] != '\n' && tab_join(fields)[i]
                != '\r',
    decreases fields.len(),
{
    if fields.len() > 1 {
        let init = fields.drop_last();
        assert forall|i: int| 0 <= i < init.len() implies unbroken(#[trigger] init[i]) by {
            assert(init[i] == fields[i]);
        }
        lemma_tab_join_lines(init);
        let last = fields.last();
        assert(unbroken(fields[fields.len() - 1]));
        let t = tab_join(fields);
        assert forall|i: int| 0 <= i < t.len() implies t[i] != '\n' && t[i] != '\r' by {
            let a = tab_join(init);
            if i >= a.len() + 1 {
                assert(t[i] == last[i - a.len() - 1]);
            }
        }
    } else if fields.len() == 1 {
        assert(unbroken(fields[0]));
    }
}

/// Every cookie becomes exactly one line: seven tab-separated fields, none of
/// which holds a tab, newline or carriage return, and a single newline at
/// the end.
pub proof fn lemma_cookie_line_shape(c: ExtensionCookie, session_ttl: u64)
    ensures
        cookie_fields(c, session_ttl).len() == 7,
        forall|i: int| 0 <= i < 7 ==> unbroken(#[trigger] cookie_fields(c, session_ttl)[i]),
        cookie_line(c, session_ttl) == tab_join(cookie_fields(c, session_ttl)) + seq!['\n'],
        cookie_line(c, session_ttl).last() == '\n',
        forall|i: int|
            0 <= i < cookie_line(c, session_ttl).len() - 1 ==> cookie_line(c, session_ttl)[i]
                != '\n' && cookie_line(c, session_ttl)[i] != '\r',
{
    reveal_strlit("#HttpOnly_");
    reveal_strlit("TRUE");
    reveal_strlit("FALSE");
    let fs = cookie_fields(c, session_ttl);
    let raw = sanitize(c.domain@);
    lemma_sanitize_clean(c.domain@);
    lemma_sanitize_clean(c.path@);
    lemma_sanitize_clean(c.name@);
    lemma_sanitize_clean(c.value@);
    lemma_decimal_unbroken(expiry_field(c, session_ttl) as nat);
    assert(unbroken(domain_field(c))) by {
        let d = domain_field(c);
        assert forall|i: int| 0 <= i < d.len() implies !is_field_break(#[trigger] d[i]) by {
            if host_only_of(c) && starts_with_dot(raw) {
                assert(d[i] == raw[i + 1]);
            } else if !host_only_of(c) && !starts_with_dot(raw) {
                if i > 0 {
                    assert(d[i] == raw[i - 1]);
                }
            }
        }
    }
    assert(unbroken(fs[0])) by {
        let p = if c.http_only { "#HttpOnly_"@ } else { Seq::<char>::empty() };
        assert forall|i: int| 0 <= i < fs[0].len() implies !is_field_break(#[trigger] fs[0][i]) by {
            if i >= p.len() {
                assert(fs[0][i] == domain_field(c)[i - p.len()]);
            }
        }
    }
    assert forall|i: int| 0 <= i < 7 implies unbroken(#[trigger] fs[i]) by {}
    lemma_tab_join_lines(fs);
}

/// The domain column without the `#HttpOnly_` marker. A cookie sent to
/// subdomains gets exactly one leading dot: its sanitized domain when that
/// already starts with a dot, a dot added in front otherwise, whatever the
/// recorded host-only flag. A host-only cookie loses at most one leading dot
/// of its sanitized domain. The include-subdomains flag says which case
/// holds.
pub proof fn lemma_domain_column(c: ExtensionCookie, session_ttl: u64)
    ensures
        ({
            let raw = sanitize(c.domain@);
            let prefix = if c.http_only { "#HttpOnly_"@ } else { Seq::<char>::empty() };
            let fields = cookie_fields(c, session_ttl);
            let d = fields[0].skip(prefix.len() as int);
            let host_only = match c.host_only {
                Some(b) => b,
                None => !(raw.len() > 0 && raw[0] == '.'),
            };
            &&& fields[0] == prefix + d
            &&& fields[1] == (if host_only { "FALSE"@ } else { "TRUE"@ })
            &&& !host_only ==> d.len() > 0 && d[0] == '.' && (if raw.len() > 0 && raw[0] == '.' {
                d == raw
            } else {
                d.drop_first() == raw
            })
            &&& host_only ==> (if raw.len() > 0 && raw[0] == '.' {
                seq!['.'] + d == raw
            } else {
                d == raw
            })
        }),
{
    let raw = sanitize(c.domain@);
    let prefix = if c.http_only { "#HttpOnly_"@ } else { Seq::<char>::empty() };
    let fields = cookie_fields(c, session_ttl);
    assert(fields[0].skip(prefix.len() as int) =~= domain_field(c));
    assert(fields[0] =~= prefix + domain_field(c));
    if raw.len() > 0 && raw[0] == '.' {
        assert(seq!['.'] + raw.drop_first() =~= raw);
    } else {
        assert((seq!['.'] + raw).drop_first() =~= raw);
    }
}

} // verus!
