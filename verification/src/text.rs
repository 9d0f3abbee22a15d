//! Character-level helpers shared by the layout, cookie-line and registry code.
//!
//! Strings are reasoned about through their `Seq<char>` views. Everything here
//! is verified except the two thin wrappers over `String::push` and
//! `str::to_lowercase`, whose contracts are stated below.
use vstd::prelude::*;
use vstd::string::StringExecFns;

verus! {

// ---------------------------------------------------------------------------
// Trusted wrappers over std
// ---------------------------------------------------------------------------

/// Appends one character. Wraps `String::push`, which the standard library
/// documents as appending the given char to the end of the string.
#[verifier::external_body]
pub(crate) fn push_char(s: &mut String, c: char)
    ensures
        final(s)@ == old(s)@.push(c),
{
    s.push(c);
}

/// The Unicode lowercase mapping that `str::to_lowercase` applies. Its tables
/// take pages to state, so only its name is used: the result depends on the
/// characters of the argument alone.
pub uninterp spec fn lowercase(s: Seq<char>) -> Seq<char>;

/// Whether `c` is an ASCII character.
pub open spec fn is_ascii_char(c: char) -> bool {
    (c as int) < 128
}

/// Whether every character of `s` is ASCII.
pub open spec fn all_ascii(s: Seq<char>) -> bool {
    forall|i: int| 0 <= i < s.len() ==> is_ascii_char(#[trigger] s[i])
}

/// `c` with `A`..`Z` mapped to `a`..`z`, other characters unchanged.
pub open spec fn ascii_lower_char(c: char) -> char {
    if 'A' <= c && c <= 'Z' {
        ((c as int) + 32) as char
    } else {
        c
    }
}

/// `s` with `A`..`Z` mapped to `a`..`z`, other characters unchanged.
pub open spec fn ascii_lower(s: Seq<char>) -> Seq<char> {
    s.map_values(|c: char| ascii_lower_char(c))
}

/// Wraps `str::to_lowercase`. The contract claims that the result is the
/// Unicode lowercase mapping of the argument's characters, which is left
/// unstated in general; on all-ASCII text it maps `A`..`Z` to `a`..`z` and
/// keeps every other character, as the documentation's own example shows
/// (`"HELLO"` gives `"hello"`) and as Unicode defines for ASCII.
#[verifier::external_body]
pub(crate) fn to_lowercase(s: &str) -> (r: String)
    ensures
        r@ == lowercase(s@),
        all_ascii(s@) ==> r@ == ascii_lower(s@),
{
    s.to_lowercase()
}

// ---------------------------------------------------------------------------
// Building and reading strings
// ---------------------------------------------------------------------------

/// Appends a string slice.
pub(crate) fn push_str(s: &mut String, t: &str)
    ensures
        final(s)@ == old(s)@ + t@,
{
    s.append(t);
}

/// A new string holding `s`.
pub(crate) fn text_of(s: &str) -> (r: String)
    ensures
        r@ == s@,
{
    let mut r = String::new();
    push_str(&mut r, s);
    assert(r@ =~= s@);
    r
}

/// A copy of an optional string.
pub(crate) fn clone_opt_string(s: &Option<String>) -> (r: Option<String>)
    ensures
        r == *s,
{
    match s {
        Some(x) => Some(x.clone()),
        None => None,
    }
}

/// The characters of `s`, in order.
pub(crate) fn chars_of(s: &str) -> (v: Vec<char>)
    ensures
        v@ == s@,
{
    let mut v: Vec<char> = Vec::new();
    for c in it: s.chars()
        invariant
            v@ == it.seq().take(it.index() as int),
            it.seq() == s@,
    {
        v.push(c);
    }
    v
}

/// Appends `v[lo..hi]` to `out`.
pub(crate) fn push_chars(out: &mut String, v: &Vec<char>, lo: usize, hi: usize)
    requires
        lo <= hi <= v@.len(),
    ensures
        final(out)@ == old(out)@ + v@.subrange(lo as int, hi as int),
{
    let ghost start = out@;
    let mut i = lo;
    while i < hi
        invariant
            lo <= i <= hi <= v@.len(),
            out@ == start + v@.subrange(lo as int, i as int),
        decreases hi - i,
    {
        push_char(out, v[i]);
        i = i + 1;
        assert(v@.subrange(lo as int, i as int) =~= v@.subrange(lo as int, i - 1).push(v@[i - 1]));
    }
}

/// A new string holding `v[lo..hi]`.
pub(crate) fn string_of(v: &Vec<char>, lo: usize, hi: usize) -> (r: String)
    requires
        lo <= hi <= v@.len(),
    ensures
        r@ == v@.subrange(lo as int, hi as int),
{
    let mut r = String::new();
    push_chars(&mut r, v, 0 + lo, hi);
    assert(r@ =~= v@.subrange(lo as int, hi as int));
    r
}

/// Whether two character vectors hold the same characters.
pub(crate) fn chars_eq(a: &Vec<char>, b: &Vec<char>) -> (r: bool)
    ensures
        r == (a@ == b@),
{
    if a.len() != b.len() {
        return false;
    }
    let mut i: usize = 0;
    while i < a.len()
        invariant
            a@.len() == b@.len(),
            i <= a@.len(),
            forall|j: int| 0 <= j < i ==> a@[j] == b@[j],
        decreases a@.len() - i,
    {
        if a[i] != b[i] {
            return false;
        }
        i = i + 1;
    }
    assert(a@ =~= b@);
    true
}

/// Whether two string slices hold the same characters.
pub(crate) fn str_eq(a: &str, b: &str) -> (r: bool)
    ensures
        r == (a@ == b@),
{
    let va = chars_of(a);
    let vb = chars_of(b);
    chars_eq(&va, &vb)
}

// ---------------------------------------------------------------------------
// Leading dots
// ---------------------------------------------------------------------------

/// `s` with every leading `'.'` removed (what `trim_start_matches('.')` gives).
pub open spec fn trim_leading_dots(s: Seq<char>) -> Seq<char>
    decreases s.len(),
{
    if s.len() > 0 && s[0] == '.' {
        trim_leading_dots(s.drop_first())
    } else {
        s
    }
}

proof fn lemma_trim_is_skip(s: Seq<char>, k: int)
    requires
        0 <= k <= s.len(),
        forall|j: int| 0 <= j < k ==> s[j] == '.',
        k == s.len() || s[k] != '.',
    ensures
        trim_leading_dots(s) == s.skip(k),
    decreases k,
{
    if k == 0 {
        assert(s.skip(0) =~= s);
    } else {
        let t = s.drop_first();
        assert forall|j: int| 0 <= j < k - 1 implies t[j] == '.' by {
            assert(t[j] == s[j + 1]);
        }
        lemma_trim_is_skip(t, k - 1);
        assert(t.skip(k - 1) =~= s.skip(k));
    }
}

/// Index of the first character of `v` that is not a `'.'`.
pub(crate) fn leading_dots_end(v: &Vec<char>) -> (k: usize)
    ensures
        k <= v@.len(),
        trim_leading_dots(v@) == v@.skip(k as int),
{
    let mut k: usize = 0;
    while k < v.len() && v[k] == '.'
        invariant
            k <= v@.len(),
            forall|j: int| 0 <= j < k ==> v@[j] == '.',
        decreases v@.len() - k,
    {
        k = k + 1;
    }
    proof {
        lemma_trim_is_skip(v@, k as int);
    }
    k
}

/// `s` without its leading dots, lowercased: the normal form of a host name.
pub open spec fn normalize_host(s: Seq<char>) -> Seq<char> {
    lowercase(trim_leading_dots(s))
}

/// The normal form of an all-ASCII host: leading dots trimmed, `A`..`Z`
/// lowered.
pub open spec fn ascii_normalize(s: Seq<char>) -> Seq<char> {
    ascii_lower(trim_leading_dots(s))
}

/// Lowering ASCII letters keeps dots (and only dots) as dots, keeps ASCII
/// text ASCII, never yields `A`..`Z`, and changes nothing a second time.
pub proof fn lemma_ascii_lower_char(c: char)
    ensures
        (ascii_lower_char(c) == '.') == (c == '.'),
        is_ascii_char(c) ==> is_ascii_char(ascii_lower_char(c)),
        ascii_lower_char(ascii_lower_char(c)) == ascii_lower_char(c),
        !('A' <= ascii_lower_char(c) && ascii_lower_char(c) <= 'Z'),
{
}

/// Lowering ASCII letters keeps ASCII text ASCII and changes nothing a
/// second time.
pub proof fn lemma_ascii_lower(s: Seq<char>)
    ensures
        ascii_lower(s).len() == s.len(),
        all_ascii(s) ==> all_ascii(ascii_lower(s)),
        ascii_lower(ascii_lower(s)) == ascii_lower(s),
        forall|i: int| 0 <= i < s.len() ==> !('A' <= #[trigger] ascii_lower(s)[i] && ascii_lower(s)[i] <= 'Z'),
{
    assert forall|i: int| 0 <= i < s.len() implies ascii_lower(ascii_lower(s))[i] == ascii_lower(s)[i]
        && (is_ascii_char(s[i]) ==> is_ascii_char(ascii_lower(s)[i]))
        && !('A' <= #[trigger] ascii_lower(s)[i] && ascii_lower(s)[i] <= 'Z') by {
        lemma_ascii_lower_char(s[i]);
    }
    assert(ascii_lower(ascii_lower(s)) =~= ascii_lower(s));
}

/// Trimming leading dots commutes with lowering ASCII letters.
pub proof fn lemma_trim_ascii_lower(s: Seq<char>)
    ensures
        trim_leading_dots(ascii_lower(s)) == ascii_lower(trim_leading_dots(s)),
    decreases s.len(),
{
    if s.len() > 0 {
        lemma_ascii_lower_char(s[0]);
        assert(ascii_lower(s)[0] == ascii_lower_char(s[0]));
        if s[0] == '.' {
            assert(ascii_lower(s).drop_first() =~= ascii_lower(s.drop_first()));
            lemma_trim_ascii_lower(s.drop_first());
        }
    } else {
        assert(ascii_lower(s) =~= s);
    }
}

/// Trimming leading dots gives a suffix that does not start with a dot and
/// keeps ASCII text ASCII.
pub proof fn lemma_trim_leading_dots(s: Seq<char>)
    ensures
        trim_leading_dots(s).len() <= s.len(),
        trim_leading_dots(s) == s.skip(s.len() - trim_leading_dots(s).len()),
        trim_leading_dots(s).len() > 0 ==> trim_leading_dots(s)[0] != '.',
        all_ascii(s) ==> all_ascii(trim_leading_dots(s)),
    decreases s.len(),
{
    if s.len() > 0 && s[0] == '.' {
        let t = s.drop_first();
        lemma_trim_leading_dots(t);
        assert(t.skip(t.len() - trim_leading_dots(t).len()) =~= s.skip(s.len() - trim_leading_dots(t).len()));
        if all_ascii(s) {
            assert forall|i: int| 0 <= i < t.len() implies is_ascii_char(#[trigger] t[i]) by {
                assert(t[i] == s[i + 1]);
            }
        }
    } else {
        assert(s.skip(0) =~= s);
    }
}

/// A leading dot is trimmed away with the others.
pub proof fn lemma_trim_extra_dot(s: Seq<char>)
    ensures
        trim_leading_dots(seq!['.'] + s) == trim_leading_dots(s),
{
    assert((seq!['.'] + s).drop_first() =~= s);
}

/// `s` with its leading dots trimmed and then lowercased.
pub(crate) fn normalized_host(s: &str) -> (r: String)
    ensures
        r@ == normalize_host(s@),
        all_ascii(s@) ==> r@ == ascii_normalize(s@),
{
    let v = chars_of(s);
    let k = leading_dots_end(&v);
    let trimmed = string_of(&v, k, v.len());
    assert(v@.subrange(k as int, v@.len() as int) =~= v@.skip(k as int));
    proof {
        lemma_trim_leading_dots(s@);
    }
    to_lowercase(trimmed.as_str())
}

// ---------------------------------------------------------------------------
// Decimal numbers
// ---------------------------------------------------------------------------

/// The ASCII digit for `d` (taken as `d % 10`).
pub open spec fn digit_char(d: nat) -> char {
    let d = d % 10;
    if d == 0 { '0' }
    else if d == 1 { '1' }
    else if d == 2 { '2' }
    else if d == 3 { '3' }
    else if d == 4 { '4' }
    else if d == 5 { '5' }
    else if d == 6 { '6' }
    else if d == 7 { '7' }
    else if d == 8 { '8' }
    else { '9' }
}

/// Base-ten digits of `n`, most significant first, without leading zeros.
pub open spec fn decimal(n: nat) -> Seq<char>
    decreases n,
{
    if n < 10 {
        seq![digit_char(n)]
    } else {
        decimal(n / 10).push(digit_char(n % 10))
    }
}

/// `n` as Rust's `{}` prints a signed integer.
pub open spec fn signed_decimal(n: int) -> Seq<char> {
    if n < 0 {
        seq!['-'] + decimal((-n) as nat)
    } else {
        decimal(n as nat)
    }
}

/// `s` left-padded with `'0'` to at least `width` characters (Rust's `{:0w}`
/// on a non-negative number).
pub open spec fn zero_pad(s: Seq<char>, width: nat) -> Seq<char> {
    if s.len() < width {
        Seq::new((width - s.len()) as nat, |i: int| '0') + s
    } else {
        s
    }
}

fn digit(d: u64) -> (c: char)
    ensures
        c == digit_char(d as nat),
{
    let d = d % 10;
    if d == 0 { '0' }
    else if d == 1 { '1' }
    else if d == 2 { '2' }
    else if d == 3 { '3' }
    else if d == 4 { '4' }
    else if d == 5 { '5' }
    else if d == 6 { '6' }
    else if d == 7 { '7' }
    else if d == 8 { '8' }
    else { '9' }
}

/// Appends the decimal digits of `n`.
pub(crate) fn push_decimal(out: &mut String, n: u64)
    ensures
        final(out)@ == old(out)@ + decimal(n as nat),
    decreases n,
{
    if n >= 10 {
        push_decimal(out, n / 10);
    }
    push_char(out, digit(n));
    proof {
        if n < 10 {
            assert(decimal(n as nat) =~= seq![digit_char(n as nat)]);
        }
    }
    assert(final(out)@ =~= old(out)@ + decimal(n as nat)) by {
        if n >= 10 {
            assert(decimal(n as nat) == decimal((n / 10) as nat).push(digit_char((n % 10) as nat)));
        }
    }
}

/// Appends `n` as Rust's `{}` prints an `i64`.
pub(crate) fn push_signed_decimal(out: &mut String, n: i64)
    ensures
        final(out)@ == old(out)@ + signed_decimal(n as int),
{
    if n < 0 {
        push_char(out, '-');
        let m: u64 = (0i128 - n as i128) as u64;
        push_decimal(out, m);
        assert(final(out)@ =~= old(out)@ + signed_decimal(n as int));
    } else {
        push_decimal(out, n as u64);
    }
}

/// Number of digits of `n`.
pub(crate) fn decimal_width(n: u64) -> (w: usize)
    ensures
        w == decimal(n as nat).len(),
        1 <= w <= 20,
    decreases n,
{
    if n < 10 {
        1
    } else {
        let w = decimal_width(n / 10);
        proof {
            lemma_decimal_len_bound(n as nat);
        }
        w + 1
    }
}

proof fn lemma_decimal_len_bound(n: nat)
    requires
        n <= 0xffff_ffff_ffff_ffffnat,
    ensures
        decimal(n).len() <= 20,
{
    assert(pow10(20) == 100_000_000_000_000_000_000nat) by {
        reveal_with_fuel(pow10, 21);
    }
    lemma_decimal_len_below_pow(n, 20);
}

/// `n < 10^k` (for `k >= 1`) gives at most `k` digits.
proof fn lemma_decimal_len_below_pow(n: nat, k: nat)
    requires
        k >= 1,
        n < pow10(k),
    ensures
        decimal(n).len() <= k,
    decreases k,
{
    if n >= 10 {
        if k == 1 {
            assert(pow10(1) == 10) by {
                reveal_with_fuel(pow10, 2);
            }
        } else {
            assert(pow10(k) == 10 * pow10((k - 1) as nat));
            assert(n / 10 < pow10((k - 1) as nat));
            lemma_decimal_len_below_pow(n / 10, (k - 1) as nat);
        }
    }
}

/// `10^k`.
pub open spec fn pow10(k: nat) -> nat
    decreases k,
{
    if k == 0 { 1 } else { 10 * pow10((k - 1) as nat) }
}

/// Appends `n` zero-padded to at least `width` digits (Rust's `{:0width}`).
pub(crate) fn push_padded_decimal(out: &mut String, n: u64, width: usize)
    ensures
        final(out)@ == old(out)@ + zero_pad(decimal(n as nat), width as nat),
{
    let ghost start = out@;
    let w = decimal_width(n);
    let mut zeros: usize = 0;
    if w < width {
        while zeros < width - w
            invariant
                w < width,
                zeros <= width - w,
                out@ == start + Seq::new(zeros as nat, |i: int| '0'),
            decreases width - w - zeros,
        {
            push_char(out, '0');
            zeros = zeros + 1;
            assert(out@ =~= start + Seq::new(zeros as nat, |i: int| '0'));
        }
    } else {
        assert(out@ =~= start);
    }
    push_decimal(out, n);
    assert(out@ =~= start + zero_pad(decimal(n as nat), width as nat));
}

// ---------------------------------------------------------------------------
// Ordering of strings
// ---------------------------------------------------------------------------

/// Lexicographic order on characters by code point. On Rust strings this is
/// the order of `String`'s `Ord`, since UTF-8 preserves code-point order.
pub open spec fn chars_lt(a: Seq<char>, b: Seq<char>) -> bool
    decreases a.len(),
{
    if a.len() == 0 {
        b.len() > 0
    } else if b.len() == 0 {
        false
    } else if a[0] != b[0] {
        (a[0] as int) < (b[0] as int)
    } else {
        chars_lt(a.drop_first(), b.drop_first())
    }
}

/// No string is below itself.
pub proof fn lemma_chars_lt_irreflexive(a: Seq<char>)
    ensures
        !chars_lt(a, a),
    decreases a.len(),
{
    if a.len() > 0 {
        lemma_chars_lt_irreflexive(a.drop_first());
    }
}

/// Of two different strings, one is below the other, and never both.
pub proof fn lemma_chars_lt_total(a: Seq<char>, b: Seq<char>)
    ensures
        a != b ==> chars_lt(a, b) || chars_lt(b, a),
        !(chars_lt(a, b) && chars_lt(b, a)),
    decreases a.len(),
{
    if a.len() > 0 && b.len() > 0 {
        if a[0] == b[0] {
            lemma_chars_lt_total(a.drop_first(), b.drop_first());
            if a.drop_first() == b.drop_first() {
                assert(a =~= seq![a[0]] + a.drop_first());
                assert(b =~= seq![b[0]] + b.drop_first());
            }
        } else {
            assert((a[0] as int) != (b[0] as int));
        }
    } else if a.len() == 0 && b.len() == 0 {
        assert(a =~= b);
    }
}

/// The order is transitive.
pub proof fn lemma_chars_lt_transitive(a: Seq<char>, b: Seq<char>, c: Seq<char>)
    requires
        chars_lt(a, b),
        chars_lt(b, c),
    ensures
        chars_lt(a, c),
    decreases a.len(),
{
    if a.len() > 0 && b.len() > 0 && c.len() > 0 {
        if a[0] == b[0] && b[0] == c[0] {
            lemma_chars_lt_transitive(a.drop_first(), b.drop_first(), c.drop_first());
        }
    }
}

/// Whether `a` comes before `b` in string order.
pub(crate) fn chars_less(a: &Vec<char>, b: &Vec<char>) -> (r: bool)
    ensures
        r == chars_lt(a@, b@),
{
    let mut i: usize = 0;
    assert(a@.skip(0) =~= a@);
    assert(b@.skip(0) =~= b@);
    while i < a.len() && i < b.len() && a[i] == b[i]
        invariant
            i <= a@.len(),
            i <= b@.len(),
            chars_lt(a@, b@) == chars_lt(a@.skip(i as int), b@.skip(i as int)),
        decreases a@.len() - i,
    {
        assert(a@.skip(i as int).drop_first() =~= a@.skip(i + 1));
        assert(b@.skip(i as int).drop_first() =~= b@.skip(i + 1));
        i = i + 1;
    }
    if i == a.len() {
        i < b.len()
    } else if i == b.len() {
        false
    } else {
        assert(a@.skip(i as int)[0] == a@[i as int]);
        assert(b@.skip(i as int)[0] == b@[i as int]);
        a[i] < b[i]
    }
}

} // verus!
