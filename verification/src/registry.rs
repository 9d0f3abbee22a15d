//! The account registry kept in `_meta.json`: for each root domain, its
//! platform kind and the accounts captured for it.
use vstd::prelude::*;

use crate::text::{
    chars_less, chars_lt, chars_of, clone_opt_string, lemma_chars_lt_irreflexive,
    lemma_chars_lt_total, lemma_chars_lt_transitive, str_eq,
};

verus! {

/// One captured account of a bucket.
#[derive(Debug)]
pub struct AccountEntry {
    pub slug: String,
    pub alias: String,
    pub source_url: Option<String>,
    pub source_label: Option<String>,
    pub captured_at_ms: i64,
    pub cookie_count: usize,
    pub last_used_at_ms: Option<i64>,
}

/// The registry entry of one root domain.
#[derive(Debug)]
pub struct BucketEntry {
    pub platform_kind: String,
    pub accounts: Vec<AccountEntry>,
}

/// Where a batch of cookies came from.
#[derive(Debug)]
pub struct IngestSource {
    pub source_url: Option<String>,
    pub source_label: String,
    pub alias_hint: Option<String>,
}

/// The content of an optional string.
pub open spec fn opt_view(o: Option<String>) -> Option<Seq<char>> {
    match o {
        Some(s) => Some(s@),
        None => None,
    }
}

pub struct AccountView {
    pub slug: Seq<char>,
    pub alias: Seq<char>,
    pub source_url: Option<Seq<char>>,
    pub source_label: Option<Seq<char>>,
    pub captured_at_ms: i64,
    pub cookie_count: usize,
    pub last_used_at_ms: Option<i64>,
}

pub struct BucketView {
    pub platform_kind: Seq<char>,
    pub accounts: Seq<AccountView>,
}

pub struct SourceView {
    pub source_url: Option<Seq<char>>,
    pub source_label: Seq<char>,
    pub alias_hint: Option<Seq<char>>,
}

impl View for AccountEntry {
    type V = AccountView;

    open spec fn view(&self) -> AccountView {
        AccountView {
            slug: self.slug@,
            alias: self.alias@,
            source_url: opt_view(self.source_url),
            source_label: opt_view(self.source_label),
            captured_at_ms: self.captured_at_ms,
            cookie_count: self.cookie_count,
            last_used_at_ms: self.last_used_at_ms,
        }
    }
}

/// The views of a sequence of accounts.
pub open spec fn account_views(accounts: Seq<AccountEntry>) -> Seq<AccountView> {
    accounts.map_values(|a: AccountEntry| a@)
}

impl View for BucketEntry {
    type V = BucketView;

    open spec fn view(&self) -> BucketView {
        BucketView { platform_kind: self.platform_kind@, accounts: account_views(self.accounts@) }
    }
}

impl View for IngestSource {
    type V = SourceView;

    open spec fn view(&self) -> SourceView {
        SourceView {
            source_url: opt_view(self.source_url),
            source_label: self.source_label@,
            alias_hint: opt_view(self.alias_hint),
        }
    }
}

impl Clone for AccountEntry {
    fn clone(&self) -> (r: Self)
        ensures
            r == *self,
    {
        AccountEntry {
            slug: self.slug.clone(),
            alias: self.alias.clone(),
            source_url: clone_opt_string(&self.source_url),
            source_label: clone_opt_string(&self.source_label),
            captured_at_ms: self.captured_at_ms,
            cookie_count: self.cookie_count,
            last_used_at_ms: self.last_used_at_ms,
        }
    }
}

/// A copy of a list of accounts.
pub(crate) fn clone_accounts(v: &Vec<AccountEntry>) -> (r: Vec<AccountEntry>)
    ensures
        r@ == v@,
{
    let mut r: Vec<AccountEntry> = Vec::new();
    let mut i: usize = 0;
    while i < v.len()
        invariant
            i <= v@.len(),
            r@ == v@.take(i as int),
        decreases v@.len() - i,
    {
        r.push(v[i].clone());
        i = i + 1;
        assert(r@ =~= v@.take(i as int));
    }
    assert(v@.take(v@.len() as int) =~= v@);
    r
}

impl Clone for BucketEntry {
    fn clone(&self) -> (r: Self)
        ensures
            r@ == self@,
    {
        BucketEntry { platform_kind: self.platform_kind.clone(), accounts: clone_accounts(&self.accounts) }
    }
}

impl Default for BucketEntry {
    fn default() -> (r: Self)
        ensures
            r@.platform_kind == Seq::<char>::empty(),
            r@.accounts == Seq::<AccountView>::empty(),
    {
        let r = BucketEntry { platform_kind: String::new(), accounts: Vec::new() };
        assert(r@.accounts =~= Seq::<AccountView>::empty());
        r
    }
}

// ---------------------------------------------------------------------------
// The registry: a map from root domain to bucket
// ---------------------------------------------------------------------------

/// Whether some entry of `s` has key `k`.
pub open spec fn has_key(s: Seq<(String, BucketEntry)>, k: Seq<char>) -> bool {
    exists|i: int| 0 <= i < s.len() && #[trigger] s[i].0@ == k
}

/// The index of the entry with key `k`.
pub open spec fn key_index(s: Seq<(String, BucketEntry)>, k: Seq<char>) -> int {
    choose|i: int| 0 <= i < s.len() && #[trigger] s[i].0@ == k
}

/// No two entries share a key.
pub open spec fn unique_keys(s: Seq<(String, BucketEntry)>) -> bool {
    forall|i: int, j: int| 0 <= i < s.len() && 0 <= j < s.len() && i != j ==> #[trigger] s[i].0@ != #[trigger] s[j].0@
}

/// The keys strictly increase in string order (the order in which a
/// `BTreeMap` keyed by `String` walks its entries).
pub open spec fn sorted_keys(s: Seq<(String, BucketEntry)>) -> bool {
    forall|i: int, j: int| 0 <= i < j < s.len() ==> chars_lt(#[trigger] s[i].0@, #[trigger] s[j].0@)
}

proof fn lemma_sorted_unique(s: Seq<(String, BucketEntry)>)
    requires
        sorted_keys(s),
    ensures
        unique_keys(s),
{
    assert forall|i: int, j: int| 0 <= i < s.len() && 0 <= j < s.len() && i != j implies #[trigger] s[i].0@
        != #[trigger] s[j].0@ by {
        if i < j {
            assert(chars_lt(s[i].0@, s[j].0@));
        } else {
            assert(chars_lt(s[j].0@, s[i].0@));
        }
        lemma_chars_lt_irreflexive(s[i].0@);
    }
}

/// The map that a list of entries with unique keys stands for.
pub open spec fn entries_view(s: Seq<(String, BucketEntry)>) -> Map<Seq<char>, BucketView> {
    Map::new(|k: Seq<char>| has_key(s, k), |k: Seq<char>| s[key_index(s, k)].1@)
}

proof fn lemma_entry_at(s: Seq<(String, BucketEntry)>, i: int)
    requires
        unique_keys(s),
        0 <= i < s.len(),
    ensures
        entries_view(s).dom().contains(s[i].0@),
        entries_view(s)[s[i].0@] == s[i].1@,
        key_index(s, s[i].0@) == i,
{
    let k = s[i].0@;
    assert(has_key(s, k));
    let j = key_index(s, k);
    assert(0 <= j < s.len() && s[j].0@ == k);
}

/// The registry of all buckets, keyed by root domain.
#[derive(Debug)]
pub struct CookieRegistry {
    buckets: Vec<(String, BucketEntry)>,
}

impl View for CookieRegistry {
    type V = Map<Seq<char>, BucketView>;

    closed spec fn view(&self) -> Map<Seq<char>, BucketView> {
        entries_view(self.buckets@)
    }
}

impl CookieRegistry {
    #[verifier::type_invariant]
    spec fn keys_are_sorted(self) -> bool {
        unique_keys(self.buckets@) && sorted_keys(self.buckets@)
    }

    /// An empty registry.
    pub fn new() -> (r: CookieRegistry)
        ensures
            r@ == Map::<Seq<char>, BucketView>::empty(),
    {
        let r = CookieRegistry { buckets: Vec::new() };
        assert(r@ =~= Map::<Seq<char>, BucketView>::empty());
        r
    }

    /// The entries of the registry, each key once, in increasing string order
    /// of key.
    pub fn entries(&self) -> (r: &Vec<(String, BucketEntry)>)
        ensures
            unique_keys(r@),
            sorted_keys(r@),
            entries_view(r@) == self@,
    {
        proof {
            use_type_invariant(self);
        }
        &self.buckets
    }

    /// Number of buckets.
    pub fn len(&self) -> (n: usize)
        ensures
            self@.dom().finite(),
            n == self@.dom().len(),
    {
        proof {
            use_type_invariant(self);
            lemma_entries_dom_len(self.buckets@);
        }
        self.buckets.len()
    }

    /// Whether the registry has no bucket.
    pub fn is_empty(&self) -> (r: bool)
        ensures
            r == (self@.dom() =~= Set::<Seq<char>>::empty()),
    {
        proof {
            use_type_invariant(self);
            if self.buckets@.len() > 0 {
                lemma_entry_at(self.buckets@, 0);
            }
        }
        self.buckets.len() == 0
    }

    fn index_of(&self, key: &str) -> (r: Option<usize>)
        ensures
            match r {
                Some(i) => i < self.buckets@.len() && self.buckets@[i as int].0@ == key@,
                None => !has_key(self.buckets@, key@),
            },
    {
        let mut i: usize = 0;
        while i < self.buckets.len()
            invariant
                i <= self.buckets@.len(),
                forall|j: int| 0 <= j < i ==> self.buckets@[j].0@ != key@,
            decreases self.buckets@.len() - i,
        {
            if str_eq(self.buckets[i].0.as_str(), key) {
                return Some(i);
            }
            i = i + 1;
        }
        None
    }

    /// The bucket of `key`, if there is one.
    pub fn get(&self, key: &str) -> (r: Option<&BucketEntry>)
        ensures
            match r {
                Some(b) => self@.dom().contains(key@) && b@ == self@[key@],
                None => !self@.dom().contains(key@),
            },
    {
        proof {
            use_type_invariant(self);
        }
        match self.index_of(key) {
            Some(i) => {
                proof {
                    lemma_entry_at(self.buckets@, i as int);
                }
                Some(&self.buckets[i].1)
            },
            None => None,
        }
    }

    /// Sets the bucket of `key`, replacing any bucket it had.
    pub fn insert(&mut self, key: String, bucket: BucketEntry)
        ensures
            final(self)@ == old(self)@.insert(key@, bucket@),
    {
        proof {
            use_type_invariant(&*self);
        }
        let ghost old_entries = self.buckets@;
        let ghost k = key@;
        let ghost b = bucket@;
        match self.index_of(key.as_str()) {
            Some(i) => {
                let mut entries: Vec<(String, BucketEntry)> = Vec::new();
                std::mem::swap(&mut entries, &mut self.buckets);
                entries.set(i, (key, bucket));
                proof {
                    assert forall|p: int, q: int| 0 <= p < q < entries@.len() implies chars_lt(
                        #[trigger] entries@[p].0@,
                        #[trigger] entries@[q].0@,
                    ) by {
                        assert(entries@[p].0@ == old_entries[p].0@);
                        assert(entries@[q].0@ == old_entries[q].0@);
                    }
                    assert forall|p: int, q: int|
                        0 <= p < entries@.len() && 0 <= q < entries@.len() && p != q implies #[trigger] entries@[p].0@
                        != #[trigger] entries@[q].0@ by {
                        if p != i as int && q != i as int {
                            assert(entries@[p] == old_entries[p] && entries@[q] == old_entries[q]);
                        } else if p == i as int {
                            assert(entries@[q] == old_entries[q]);
                        } else {
                            assert(entries@[p] == old_entries[p]);
                        }
                    }
                    assert(entries_view(entries@) =~= entries_view(old_entries).insert(k, b)) by {
                        assert forall|kk: Seq<char>| #[trigger] has_key(entries@, kk) == (has_key(old_entries, kk) || kk == k) by {
                            if has_key(old_entries, kk) {
                                let j = key_index(old_entries, kk);
                                if j != i as int {
                                    assert(entries@[j] == old_entries[j]);
                                }
                            }
                            if has_key(entries@, kk) {
                                let j = key_index(entries@, kk);
                                if j != i as int {
                                    assert(entries@[j] == old_entries[j]);
                                }
                            }
                            if kk == k {
                                assert(entries@[i as int].0@ == k);
                            }
                        }
                        assert forall|kk: Seq<char>| has_key(entries@, kk) implies entries_view(entries@)[kk]
                            == entries_view(old_entries).insert(k, b)[kk] by {
                            let j = key_index(entries@, kk);
                            lemma_entry_at(entries@, j);
                            if j != i as int {
                                assert(entries@[j] == old_entries[j]);
                                lemma_entry_at(old_entries, j);
                            }
                        }
                    }
                }
                self.buckets = entries;
            },
            None => {
                let kv = chars_of(key.as_str());
                let mut pos: usize = 0;
                while pos < self.buckets.len() && chars_less(&chars_of(self.buckets[pos].0.as_str()), &kv)
                    invariant
                        pos <= old_entries.len(),
                        self.buckets@ == old_entries,
                        kv@ == k,
                        forall|j: int| 0 <= j < pos ==> chars_lt(old_entries[j].0@, k),
                    decreases old_entries.len() - pos,
                {
                    pos = pos + 1;
                }
                let mut entries: Vec<(String, BucketEntry)> = Vec::new();
                std::mem::swap(&mut entries, &mut self.buckets);
                entries.insert(pos, (key, bucket));
                proof {
                    let n = old_entries.len();
                    let p = pos as int;
                    assert forall|j: int| 0 <= j < entries@.len() implies #[trigger] entries@[j] == (if j < p {
                        old_entries[j]
                    } else if j == p {
                        entries@[j]
                    } else {
                        old_entries[j - 1]
                    }) by {}
                    assert(entries@[p].0@ == k);
                    assert forall|j: int| 0 <= j < n implies #[trigger] old_entries[j].0@ != k by {}
                    if p < n {
                        lemma_chars_lt_total(k, old_entries[p].0@);
                    }
                    assert forall|j: int| p <= j < n implies chars_lt(k, #[trigger] old_entries[j].0@) by {
                        if j > p {
                            lemma_chars_lt_transitive(k, old_entries[p].0@, old_entries[j].0@);
                        }
                    }
                    assert forall|i: int, j: int| 0 <= i < j < entries@.len() implies chars_lt(
                        #[trigger] entries@[i].0@,
                        #[trigger] entries@[j].0@,
                    ) by {
                        if i < p && j > p {
                            lemma_chars_lt_transitive(old_entries[i].0@, k, old_entries[j - 1].0@);
                        }
                    }
                    lemma_sorted_unique(entries@);
                    assert(entries_view(entries@) =~= entries_view(old_entries).insert(k, b)) by {
                        assert forall|kk: Seq<char>| #[trigger] has_key(entries@, kk) == (has_key(old_entries, kk) || kk == k) by {
                            if has_key(old_entries, kk) {
                                let j = key_index(old_entries, kk);
                                if j < p {
                                    assert(entries@[j] == old_entries[j]);
                                } else {
                                    assert(entries@[j + 1] == old_entries[j]);
                                }
                            }
                            if has_key(entries@, kk) && kk != k {
                                let j = key_index(entries@, kk);
                                if j < p {
                                    assert(entries@[j] == old_entries[j]);
                                } else {
                                    assert(j != p);
                                    assert(entries@[j] == old_entries[j - 1]);
                                }
                            }
                        }
                        assert forall|kk: Seq<char>| has_key(entries@, kk) implies entries_view(entries@)[kk]
                            == entries_view(old_entries).insert(k, b)[kk] by {
                            let j = key_index(entries@, kk);
                            lemma_entry_at(entries@, j);
                            if j < p {
                                assert(entries@[j] == old_entries[j]);
                                lemma_entry_at(old_entries, j);
                            } else if j > p {
                                assert(entries@[j] == old_entries[j - 1]);
                                lemma_entry_at(old_entries, j - 1);
                            }
                        }
                    }
                }
                self.buckets = entries;
            },
        }
    }

    /// Drops the bucket of `key`, if there is one.
    pub fn remove(&mut self, key: &str)
        ensures
            final(self)@ == old(self)@.remove(key@),
    {
        proof {
            use_type_invariant(&*self);
        }
        let ghost old_entries = self.buckets@;
        let ghost k = key@;
        match self.index_of(key) {
            Some(i) => {
                let mut entries: Vec<(String, BucketEntry)> = Vec::new();
                std::mem::swap(&mut entries, &mut self.buckets);
                entries.remove(i);
                proof {
                    let n = old_entries.len();
                    assert forall|p: int| 0 <= p < entries@.len() implies #[trigger] entries@[p] == old_entries[
                        if p < i { p } else { p + 1 }] by {}
                    assert forall|p: int, q: int|
                        0 <= p < entries@.len() && 0 <= q < entries@.len() && p != q implies #[trigger] entries@[p].0@
                        != #[trigger] entries@[q].0@ by {
                        let pp = if p < i { p } else { p + 1 };
                        let qq = if q < i { q } else { q + 1 };
                        assert(entries@[p] == old_entries[pp]);
                        assert(entries@[q] == old_entries[qq]);
                    }
                    assert forall|p: int, q: int| 0 <= p < q < entries@.len() implies chars_lt(
                        #[trigger] entries@[p].0@,
                        #[trigger] entries@[q].0@,
                    ) by {
                        let pp = if p < i { p } else { p + 1 };
                        let qq = if q < i { q } else { q + 1 };
                        assert(entries@[p] == old_entries[pp]);
                        assert(entries@[q] == old_entries[qq]);
                    }
                    assert(entries_view(entries@) =~= entries_view(old_entries).remove(k)) by {
                        assert forall|kk: Seq<char>| #[trigger] has_key(entries@, kk) == (has_key(old_entries, kk) && kk != k) by {
                            if has_key(old_entries, kk) && kk != k {
                                let j = key_index(old_entries, kk);
                                assert(j != i as int);
                                let jj = if j < i { j } else { j - 1 };
                                assert(entries@[jj] == old_entries[j]);
                            }
                            if has_key(entries@, kk) {
                                let j = key_index(entries@, kk);
                                let jj = if j < i { j } else { j + 1 };
                                assert(entries@[j] == old_entries[jj]);
                                assert(jj != i as int);
                            }
                        }
                        assert forall|kk: Seq<char>| has_key(entries@, kk) implies entries_view(entries@)[kk]
                            == entries_view(old_entries).remove(k)[kk] by {
                            let j = key_index(entries@, kk);
                            lemma_entry_at(entries@, j);
                            let jj = if j < i { j } else { j + 1 };
                            assert(entries@[j] == old_entries[jj]);
                            lemma_entry_at(old_entries, jj);
                        }
                    }
                }
                self.buckets = entries;
            },
            None => {
                proof {
                    assert(entries_view(old_entries) =~= entries_view(old_entries).remove(k));
                }
            },
        }
    }
}

impl Default for CookieRegistry {
    fn default() -> (r: Self)
        ensures
            r@ == Map::<Seq<char>, BucketView>::empty(),
    {
        CookieRegistry::new()
    }
}

proof fn lemma_entries_dom_len(s: Seq<(String, BucketEntry)>)
    requires
        unique_keys(s),
    ensures
        entries_view(s).dom().finite(),
        entries_view(s).dom().len() == s.len(),
    decreases s.len(),
{
    if s.len() == 0 {
        assert(entries_view(s).dom() =~= Set::<Seq<char>>::empty());
    } else {
        let t = s.drop_last();
        assert(unique_keys(t)) by {
            assert forall|i: int, j: int| 0 <= i < t.len() && 0 <= j < t.len() && i != j implies #[trigger] t[i].0@
                != #[trigger] t[j].0@ by {
                assert(t[i] == s[i] && t[j] == s[j]);
            }
        }
        lemma_entries_dom_len(t);
        let k = s.last().0@;
        assert(!entries_view(t).dom().contains(k)) by {
            if has_key(t, k) {
                let j = key_index(t, k);
                assert(t[j] == s[j]);
            }
        }
        assert(entries_view(s).dom() =~= entries_view(t).dom().insert(k)) by {
            assert forall|kk: Seq<char>| #[trigger] has_key(s, kk) == (has_key(t, kk) || kk == k) by {
                if has_key(t, kk) {
                    let j = key_index(t, kk);
                    assert(s[j] == t[j]);
                }
                if has_key(s, kk) && kk != k {
                    let j = key_index(s, kk);
                    assert(j != s.len() - 1);
                    assert(t[j] == s[j]);
                }
                if kk == k {
                    assert(s[s.len() - 1].0@ == k);
                }
            }
        }
    }
}


// ---------------------------------------------------------------------------
// Finding an account by slug
// ---------------------------------------------------------------------------

/// Index of the first account with `slug`, or `-1` when there is none.
pub open spec fn slug_index(accounts: Seq<AccountView>, slug: Seq<char>) -> int
    decreases accounts.len(),
{
    if accounts.len() == 0 {
        -1
    } else {
        let j = slug_index(accounts.drop_last(), slug);
        if j >= 0 {
            j
        } else if accounts.last().slug == slug {
            accounts.len() - 1
        } else {
            -1
        }
    }
}

/// `slug_index` is the first index holding the slug, `-1` when none does.
pub proof fn lemma_slug_index(accounts: Seq<AccountView>, slug: Seq<char>)
    ensures
        -1 <= slug_index(accounts, slug) < accounts.len(),
        slug_index(accounts, slug) >= 0 ==> accounts[slug_index(accounts, slug)].slug == slug,
        forall|j: int|
            0 <= j < accounts.len() && (slug_index(accounts, slug) < 0 || j < slug_index(accounts, slug))
                ==> #[trigger] accounts[j].slug != slug,
    decreases accounts.len(),
{
    if accounts.len() > 0 {
        let init = accounts.drop_last();
        lemma_slug_index(init, slug);
        assert forall|j: int|
            0 <= j < accounts.len() && (slug_index(accounts, slug) < 0 || j < slug_index(accounts, slug))
                implies #[trigger] accounts[j].slug != slug by {
            if j < init.len() {
                assert(init[j] == accounts[j]);
            }
        }
        if slug_index(init, slug) >= 0 {
            assert(init[slug_index(init, slug)] == accounts[slug_index(init, slug)]);
        }
    }
}

/// Index of the first account with `slug`.
pub(crate) fn find_slug(accounts: &Vec<AccountEntry>, slug: &str) -> (r: Option<usize>)
    ensures
        match r {
            Some(i) => i as int == slug_index(account_views(accounts@), slug@),
            None => slug_index(account_views(accounts@), slug@) == -1,
        },
{
    let ghost views = account_views(accounts@);
    proof {
        lemma_slug_index(views, slug@);
    }
    let mut i: usize = 0;
    while i < accounts.len()
        invariant
            i <= accounts@.len(),
            views == account_views(accounts@),
            views.len() == accounts@.len(),
            -1 <= slug_index(views, slug@) < views.len(),
            slug_index(views, slug@) >= 0 ==> views[slug_index(views, slug@)].slug == slug@,
            forall|j: int|
                0 <= j < views.len() && (slug_index(views, slug@) < 0 || j < slug_index(views, slug@))
                    ==> #[trigger] views[j].slug != slug@,
            forall|j: int| 0 <= j < i ==> views[j].slug != slug@,
        decreases accounts@.len() - i,
    {
        if str_eq(accounts[i].slug.as_str(), slug) {
            proof {
                let k = slug_index(views, slug@);
                assert(views[i as int].slug == slug@);
                if k >= 0 && k < i {
                    assert(views[k].slug == slug@);
                }
            }
            return Some(i);
        }
        i = i + 1;
    }
    None
}

} // verus!
