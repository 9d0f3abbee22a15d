//! Ingesting a batch of captured cookies: grouping them by root domain, the
//! account file that each group becomes, and the registry update.
//!
//! The caller performs the file writes: `ingest_batch` returns the groups to
//! write (in the order to write them), the updated registry to save once every
//! write succeeded, and the `(root, count)` pairs to report.
use vstd::prelude::*;

use crate::alias::{date_text, default_alias, default_alias_for, display_name};
use crate::layout::DEFAULT_SLUG;
use crate::netscape::ExtensionCookie;
use crate::platform::{kind_name, kind_of_domain, root_domain, root_domain_of, PlatformKind};
use crate::registry::{
    account_views, clone_accounts, find_slug, lemma_slug_index, slug_index, AccountEntry,
    AccountView, BucketEntry, BucketView, CookieRegistry, IngestSource, SourceView,
};
use crate::text::{
    chars_eq, chars_less, chars_lt, chars_of, lemma_chars_lt_irreflexive, lemma_chars_lt_total,
    lemma_chars_lt_transitive, clone_opt_string, text_of,
};

verus! {

// ---------------------------------------------------------------------------
// Grouping by root domain
// ---------------------------------------------------------------------------

/// The cookies of `cs` whose root domain is `k`, in the order they came in.
pub open spec fn with_root(cs: Seq<ExtensionCookie>, k: Seq<char>) -> Seq<ExtensionCookie>
    decreases cs.len(),
{
    if cs.len() == 0 {
        cs
    } else if root_domain(cs.last().domain@) == k {
        with_root(cs.drop_last(), k).push(cs.last())
    } else {
        with_root(cs.drop_last(), k)
    }
}

/// `groups` holds, in increasing string order of root domain, one group per
/// non-empty root domain of `cs` and no other, each with exactly the cookies
/// of that root in the order they came in (so never an empty group).
pub open spec fn is_grouping(cs: Seq<ExtensionCookie>, groups: Seq<(String, Vec<ExtensionCookie>)>) -> bool {
    &&& forall|i: int, j: int| 0 <= i < j < groups.len() ==> chars_lt(#[trigger] groups[i].0@, #[trigger] groups[j].0@)
    &&& forall|i: int|
        0 <= i < groups.len() ==> (#[trigger] groups[i].0@).len() > 0 && groups[i].1@ == with_root(cs, groups[i].0@)
    &&& forall|i: int| 0 <= i < groups.len() ==> (#[trigger] groups[i].1@).len() > 0
    &&& forall|t: int|
        0 <= t < cs.len() && root_domain((#[trigger] cs[t]).domain@).len() > 0 ==> exists|i: int|
            0 <= i < groups.len() && #[trigger] groups[i].0@ == root_domain(cs[t].domain@)
}

proof fn lemma_with_root_none(cs: Seq<ExtensionCookie>, k: Seq<char>)
    requires
        forall|t: int| 0 <= t < cs.len() ==> root_domain((#[trigger] cs[t]).domain@) != k,
    ensures
        with_root(cs, k) == Seq::<ExtensionCookie>::empty(),
    decreases cs.len(),
{
    if cs.len() > 0 {
        assert(root_domain(cs[cs.len() - 1].domain@) != k);
        assert forall|t: int| 0 <= t < cs.drop_last().len() implies root_domain(
            (#[trigger] cs.drop_last()[t]).domain@,
        ) != k by {
            assert(cs.drop_last()[t] == cs[t]);
        }
        lemma_with_root_none(cs.drop_last(), k);
    }
}

/// Groups the cookies whose root domain is not empty by root domain.
pub fn group_by_root(cookies: &[ExtensionCookie]) -> (groups: Vec<(String, Vec<ExtensionCookie>)>)
    ensures
        is_grouping(cookies@, groups@),
{
    let mut groups: Vec<(String, Vec<ExtensionCookie>)> = Vec::new();
    let mut t: usize = 0;
    while t < cookies.len()
        invariant
            t <= cookies@.len(),
            is_grouping(cookies@.take(t as int), groups@),
        decreases cookies@.len() - t,
    {
        let ghost prev = cookies@.take(t as int);
        let ghost next = cookies@.take(t + 1);
        let ghost old_groups = groups@;
        assert(next.drop_last() =~= prev);
        assert(next.last() == cookies@[t as int]);
        let c = &cookies[t];
        let root = root_domain_of(c.domain.as_str());
        let rv = chars_of(root.as_str());
        if rv.len() == 0 {
            proof {
                assert forall|i: int| 0 <= i < groups@.len() implies (#[trigger] groups@[i].0@).len() > 0
                    && groups@[i].1@ == with_root(next, groups@[i].0@) by {}
                assert forall|u: int|
                    0 <= u < next.len() && root_domain((#[trigger] next[u]).domain@).len() > 0 implies exists|i: int|
                        0 <= i < groups@.len() && #[trigger] groups@[i].0@ == root_domain(next[u].domain@) by {
                    assert(u < prev.len());
                    assert(next[u] == prev[u]);
                }
            }
        } else {
            let mut p: usize = 0;
            while p < groups.len() && chars_less(&chars_of(groups[p].0.as_str()), &rv)
                invariant
                    p <= groups@.len(),
                    groups@ == old_groups,
                    forall|j: int| 0 <= j < p ==> chars_lt(groups@[j].0@, root@),
                    rv@ == root@,
                decreases groups@.len() - p,
            {
                p = p + 1;
            }
            let found = p < groups.len() && chars_eq(&chars_of(groups[p].0.as_str()), &rv);
            if found {
                let mut g = groups.remove(p);
                g.1.push(c.clone());
                groups.insert(p, g);
                proof {
                    assert forall|j: int| 0 <= j < groups@.len() implies #[trigger] groups@[j].0@ == old_groups[j].0@ && (
                    j != p ==> groups@[j] == old_groups[j]) by {}
                    assert forall|j: int| 0 <= j < groups@.len() && j != p implies #[trigger] groups@[j].0@ != root@ by {
                        if j < p {
                            lemma_chars_lt_irreflexive(root@);
                        } else {
                            assert(chars_lt(old_groups[p as int].0@, old_groups[j].0@));
                            lemma_chars_lt_irreflexive(root@);
                        }
                    }
                    assert forall|i: int| 0 <= i < groups@.len() implies (#[trigger] groups@[i].0@).len() > 0
                        && groups@[i].1@ == with_root(next, groups@[i].0@) by {
                        if i == p {
                            assert(groups@[i].1@ =~= old_groups[i].1@.push(cookies@[t as int]));
                        }
                    }
                    assert forall|u: int|
                        0 <= u < next.len() && root_domain((#[trigger] next[u]).domain@).len() > 0 implies exists|i: int|
                            0 <= i < groups@.len() && #[trigger] groups@[i].0@ == root_domain(next[u].domain@) by {
                        if u < prev.len() {
                            assert(next[u] == prev[u]);
                            let i = choose|i: int| 0 <= i < old_groups.len() && #[trigger] old_groups[i].0@ == root_domain(prev[u].domain@);
                            assert(groups@[i].0@ == old_groups[i].0@);
                        } else {
                            assert(groups@[p as int].0@ == root@);
                        }
                    }
                }
            } else {
                let mut g: Vec<ExtensionCookie> = Vec::new();
                g.push(c.clone());
                groups.insert(p, (root, g));
                proof {
                    let n = old_groups.len();
                    assert forall|j: int| 0 <= j < groups@.len() implies #[trigger] groups@[j] == (if j < p {
                        old_groups[j]
                    } else if j == p {
                        groups@[j]
                    } else {
                        old_groups[j - 1]
                    }) by {}
                    // Every key from position p on comes after the new root.
                    if p < n {
                        lemma_chars_lt_total(root@, old_groups[p as int].0@);
                    }
                    assert forall|j: int| p <= j < n implies chars_lt(root@, #[trigger] old_groups[j].0@) by {
                        if j > p {
                            lemma_chars_lt_transitive(root@, old_groups[p as int].0@, old_groups[j].0@);
                        }
                    }
                    assert forall|i: int, j: int| 0 <= i < j < groups@.len() implies chars_lt(
                        #[trigger] groups@[i].0@,
                        #[trigger] groups@[j].0@,
                    ) by {
                        if i < p && j > p {
                            lemma_chars_lt_transitive(old_groups[i].0@, root@, old_groups[j - 1].0@);
                        }
                    }
                    assert forall|j: int| 0 <= j < n implies #[trigger] old_groups[j].0@ != root@ by {
                        lemma_chars_lt_irreflexive(root@);
                    }
                    assert forall|u: int| 0 <= u < prev.len() implies root_domain((#[trigger] prev[u]).domain@)
                        != root@ by {
                        if root_domain(prev[u].domain@) == root@ {
                            let i = choose|i: int| 0 <= i < old_groups.len() && #[trigger] old_groups[i].0@ == root_domain(prev[u].domain@);
                        }
                    }
                    lemma_with_root_none(prev, root@);
                    assert forall|i: int| 0 <= i < groups@.len() implies (#[trigger] groups@[i].0@).len() > 0
                        && groups@[i].1@ == with_root(next, groups@[i].0@) by {
                        if i == p {
                            assert(groups@[i].1@ =~= Seq::<ExtensionCookie>::empty().push(cookies@[t as int]));
                        }
                    }
                    assert forall|u: int|
                        0 <= u < next.len() && root_domain((#[trigger] next[u]).domain@).len() > 0 implies exists|i: int|
                            0 <= i < groups@.len() && #[trigger] groups@[i].0@ == root_domain(next[u].domain@) by {
                        if u < prev.len() {
                            assert(next[u] == prev[u]);
                            let i = choose|i: int| 0 <= i < old_groups.len() && #[trigger] old_groups[i].0@ == root_domain(prev[u].domain@);
                            if i < p {
                                assert(groups@[i].0@ == old_groups[i].0@);
                            } else {
                                assert(groups@[i + 1].0@ == old_groups[i].0@);
                            }
                        } else {
                            assert(groups@[p as int].0@ == root@);
                        }
                    }
                }
            }
        }
        t = t + 1;
    }
    assert(cookies@.take(cookies@.len() as int) =~= cookies@);
    groups
}


// ---------------------------------------------------------------------------
// Registry update
// ---------------------------------------------------------------------------

/// The primary account after a new capture of `count` cookies: capture time
/// and count replaced, the source label set, the source URL and alias
/// replaced only when the capture gives one.
pub open spec fn refreshed_account(a: AccountView, count: usize, source: SourceView, now: i64) -> AccountView {
    AccountView {
        slug: a.slug,
        alias: match source.alias_hint {
            Some(h) => h,
            None => a.alias,
        },
        source_url: match source.source_url {
            Some(u) => Some(u),
            None => a.source_url,
        },
        source_label: Some(source.source_label),
        captured_at_ms: now,
        cookie_count: count,
        last_used_at_ms: a.last_used_at_ms,
    }
}

/// A new primary account for a first capture.
pub open spec fn new_primary_account(kind: PlatformKind, count: usize, source: SourceView, now: i64) -> AccountView {
    AccountView {
        slug: DEFAULT_SLUG@,
        alias: match source.alias_hint {
            Some(h) => h,
            None => default_alias(kind, now as int),
        },
        source_url: source.source_url,
        source_label: Some(source.source_label),
        captured_at_ms: now,
        cookie_count: count,
        last_used_at_ms: None,
    }
}

/// The bucket of `root` after ingesting `count` cookies for it: its platform
/// kind recomputed from the root, and its first primary account refreshed,
/// or a primary account appended when it has none.
pub open spec fn ingest_bucket(
    old: Option<BucketView>,
    root: Seq<char>,
    count: usize,
    source: SourceView,
    now: i64,
) -> BucketView {
    let kind = kind_of_domain(root);
    let accounts = match old {
        Some(b) => b.accounts,
        None => Seq::empty(),
    };
    let i = slug_index(accounts, DEFAULT_SLUG@);
    BucketView {
        platform_kind: kind_name(kind),
        accounts: if i >= 0 {
            accounts.update(i, refreshed_account(accounts[i], count, source, now))
        } else {
            accounts.push(new_primary_account(kind, count, source, now))
        },
    }
}

/// The registry after ingesting the `(root, count)` pairs of `written`, in
/// order.
pub open spec fn apply_ingest(
    registry: Map<Seq<char>, BucketView>,
    written: Seq<(Seq<char>, usize)>,
    source: SourceView,
    now: i64,
) -> Map<Seq<char>, BucketView>
    decreases written.len(),
{
    if written.len() == 0 {
        registry
    } else {
        let prev = apply_ingest(registry, written.drop_last(), source, now);
        let (root, count) = written.last();
        let old = if prev.dom().contains(root) {
            Some(prev[root])
        } else {
            None
        };
        prev.insert(root, ingest_bucket(old, root, count, source, now))
    }
}

/// The `(root, count)` pairs of a report, by content.
pub open spec fn written_view(w: Seq<(String, usize)>) -> Seq<(Seq<char>, usize)> {
    w.map_values(|p: (String, usize)| (p.0@, p.1))
}

/// The `(root, count)` pairs that a grouping reports.
pub open spec fn group_counts(groups: Seq<(String, Vec<ExtensionCookie>)>) -> Seq<(Seq<char>, usize)> {
    groups.map_values(|g: (String, Vec<ExtensionCookie>)| (g.0@, g.1@.len() as usize))
}

/// The bucket of `root` after ingesting `count` cookies for it.
fn ingest_into_bucket(
    old: Option<&BucketEntry>,
    root: &str,
    count: usize,
    source: &IngestSource,
    now: i64,
) -> (b: BucketEntry)
    ensures
        b@ == ingest_bucket(
            match old {
                Some(x) => Some(x@),
                None => None,
            },
            root@,
            count,
            source@,
            now,
        ),
{
    let kind = PlatformKind::from_domain(root);
    let mut accounts: Vec<AccountEntry> = match old {
        Some(x) => clone_accounts(&x.accounts),
        None => Vec::new(),
    };
    let ghost olds = account_views(accounts@);
    let ghost old_view = match old {
        Some(x) => Some(x@),
        None => None,
    };
    assert(olds =~= match old_view {
        Some(b) => b.accounts,
        None => Seq::<AccountView>::empty(),
    });
    proof {
        lemma_slug_index(olds, DEFAULT_SLUG@);
    }
    match find_slug(&accounts, DEFAULT_SLUG) {
        Some(i) => {
            let mut a = accounts[i].clone();
            a.captured_at_ms = now;
            a.cookie_count = count;
            match &source.source_url {
                Some(u) => {
                    a.source_url = Some(u.clone());
                },
                None => {},
            }
            a.source_label = Some(source.source_label.clone());
            match &source.alias_hint {
                Some(h) => {
                    a.alias = h.clone();
                },
                None => {},
            }
            accounts.set(i, a);
            assert(account_views(accounts@) =~= olds.update(
                i as int,
                refreshed_account(olds[i as int], count, source@, now),
            ));
        },
        None => {
            let alias = match &source.alias_hint {
                Some(h) => h.clone(),
                None => default_alias_for(kind, now),
            };
            accounts.push(
                AccountEntry {
                    slug: text_of(DEFAULT_SLUG),
                    alias,
                    source_url: clone_opt_string(&source.source_url),
                    source_label: Some(source.source_label.clone()),
                    captured_at_ms: now,
                    cookie_count: count,
                    last_used_at_ms: None,
                },
            );
            assert(account_views(accounts@) =~= olds.push(
                new_primary_account(kind, count, source@, now),
            ));
        },
    }
    let b = BucketEntry { platform_kind: text_of(kind.as_str()), accounts };
    assert(b@.accounts == ingest_bucket(old_view, root@, count, source@, now).accounts);
    b
}

/// What ingesting a batch amounts to: the account files to write, the
/// registry to save once they are written, and the report.
#[derive(Debug)]
pub struct IngestPlan {
    /// One group per root domain, in string order of root: the primary
    /// account file of that root is to hold exactly these cookies.
    pub files: Vec<(String, Vec<ExtensionCookie>)>,
    /// The registry with every group recorded.
    pub registry: CookieRegistry,
    /// `(root, number of cookies)` for each group, in the same order.
    pub written: Vec<(String, usize)>,
}

/// Ingests a batch of captured cookies into `registry` at time `now_ms`:
/// cookies are grouped by root domain (those with an empty root are
/// dropped), each group is to become the primary account file of its root,
/// and each root's bucket is updated as `ingest_bucket` says.
pub fn ingest_batch(
    cookies: &[ExtensionCookie],
    source: IngestSource,
    registry: CookieRegistry,
    now_ms: i64,
) -> (plan: IngestPlan)
    ensures
        is_grouping(cookies@, plan.files@),
        written_view(plan.written@) == group_counts(plan.files@),
        plan.registry@ == apply_ingest(registry@, written_view(plan.written@), source@, now_ms),
{
    let files = group_by_root(cookies);
    let mut reg = registry;
    let mut written: Vec<(String, usize)> = Vec::new();
    let mut i: usize = 0;
    while i < files.len()
        invariant
            i <= files@.len(),
            written_view(written@) == group_counts(files@).take(i as int),
            reg@ == apply_ingest(registry@, written_view(written@), source@, now_ms),
        decreases files@.len() - i,
    {
        let count = files[i].1.len();
        let root = files[i].0.as_str();
        let bucket = ingest_into_bucket(reg.get(root), root, count, &source, now_ms);
        let ghost before = written_view(written@);
        reg.insert(files[i].0.clone(), bucket);
        written.push((files[i].0.clone(), count));
        proof {
            assert(written_view(written@).drop_last() =~= before);
            assert(written_view(written@) =~= group_counts(files@).take(i + 1));
        }
        i = i + 1;
    }
    assert(group_counts(files@).take(files@.len() as int) =~= group_counts(files@));
    IngestPlan { files, registry: reg, written }
}


// ---------------------------------------------------------------------------
// Laws
// ---------------------------------------------------------------------------

/// Whether the roots of `written` are pairwise different.
pub open spec fn distinct_roots(written: Seq<(Seq<char>, usize)>) -> bool {
    forall|i: int, j: int| 0 <= i < written.len() && 0 <= j < written.len() && i != j ==> #[trigger] written[i].0 != #[trigger] written[j].0
}

/// Ingesting touches exactly the reported roots: each of them gets the
/// bucket that `ingest_bucket` makes of its previous bucket, and every other
/// bucket stays as it was.
pub proof fn lemma_ingest_pointwise(
    registry: Map<Seq<char>, BucketView>,
    written: Seq<(Seq<char>, usize)>,
    source: SourceView,
    now: i64,
)
    requires
        distinct_roots(written),
    ensures
        forall|k: Seq<char>| #[trigger] apply_ingest(registry, written, source, now).dom().contains(k) <==> (
        registry.dom().contains(k) || exists|i: int| 0 <= i < written.len() && written[i].0 == k),
        forall|i: int|
            0 <= i < written.len() ==> #[trigger] apply_ingest(registry, written, source, now)[written[i].0]
                == ingest_bucket(
                if registry.dom().contains(written[i].0) {
                    Some(registry[written[i].0])
                } else {
                    None
                },
                written[i].0,
                written[i].1,
                source,
                now,
            ),
        forall|k: Seq<char>|
            registry.dom().contains(k) && (forall|i: int| 0 <= i < written.len() ==> written[i].0 != k)
                ==> #[trigger] apply_ingest(registry, written, source, now)[k] == registry[k],
    decreases written.len(),
{
    if written.len() > 0 {
        let init = written.drop_last();
        assert(distinct_roots(init)) by {
            assert forall|i: int, j: int| 0 <= i < init.len() && 0 <= j < init.len() && i != j implies #[trigger] init[i].0
                != #[trigger] init[j].0 by {
                assert(init[i] == written[i] && init[j] == written[j]);
            }
        }
        lemma_ingest_pointwise(registry, init, source, now);
        let n = written.len() - 1;
        let last = written[n];
        let prev = apply_ingest(registry, init, source, now);
        let res = apply_ingest(registry, written, source, now);
        assert forall|i: int| 0 <= i < init.len() implies #[trigger] init[i].0 != last.0 by {
            assert(init[i] == written[i]);
        }
        // The last root was untouched before it.
        if registry.dom().contains(last.0) {
            assert(prev[last.0] == registry[last.0]);
        }
        if prev.dom().contains(last.0) {
            assert(registry.dom().contains(last.0)) by {
                if !registry.dom().contains(last.0) {
                    let i = choose|i: int| 0 <= i < init.len() && init[i].0 == last.0;
                }
            }
        }
        assert forall|k: Seq<char>| #[trigger] res.dom().contains(k) <==> (registry.dom().contains(k) || exists|i: int|
            0 <= i < written.len() && written[i].0 == k) by {
            if exists|i: int| 0 <= i < written.len() && written[i].0 == k {
                let i = choose|i: int| 0 <= i < written.len() && written[i].0 == k;
                if i < n {
                    assert(init[i] == written[i]);
                }
            }
            if prev.dom().contains(k) && !registry.dom().contains(k) {
                let i = choose|i: int| 0 <= i < init.len() && init[i].0 == k;
                assert(written[i] == init[i]);
            }
        }
        assert forall|i: int| 0 <= i < written.len() implies #[trigger] res[written[i].0] == ingest_bucket(
            if registry.dom().contains(written[i].0) {
                Some(registry[written[i].0])
            } else {
                None
            },
            written[i].0,
            written[i].1,
            source,
            now,
        ) by {
            if i < n {
                assert(init[i] == written[i]);
                assert(written[i].0 != last.0);
            }
        }
        assert forall|k: Seq<char>|
            registry.dom().contains(k) && (forall|i: int| 0 <= i < written.len() ==> written[i].0 != k) implies #[trigger] res[k]
                == registry[k] by {
            assert(forall|i: int| 0 <= i < init.len() ==> init[i] == written[i]);
            assert(k != written[n].0);
        }
    }
}

/// After an ingest, the bucket of a root carries the root's platform kind and
/// a primary account recording the capture: its cookie count, the capture
/// time and the source label. Every other account of the bucket is kept.
pub proof fn lemma_ingest_bucket_primary(
    old: Option<BucketView>,
    root: Seq<char>,
    count: usize,
    source: SourceView,
    now: i64,
)
    ensures
        ({
            let b = ingest_bucket(old, root, count, source, now);
            let olds = match old {
                Some(o) => o.accounts,
                None => Seq::<AccountView>::empty(),
            };
            let p = slug_index(b.accounts, DEFAULT_SLUG@);
            &&& b.platform_kind == kind_name(kind_of_domain(root))
            &&& 0 <= p < b.accounts.len()
            &&& b.accounts[p].cookie_count == count
            &&& b.accounts[p].captured_at_ms == now
            &&& b.accounts[p].source_label == Some(source.source_label)
            &&& b.accounts.len() == olds.len() || b.accounts.len() == olds.len() + 1
            &&& forall|j: int| 0 <= j < olds.len() && j != p ==> b.accounts[j] == olds[j]
        }),
{
    let b = ingest_bucket(old, root, count, source, now);
    let olds = match old {
        Some(o) => o.accounts,
        None => Seq::<AccountView>::empty(),
    };
    lemma_slug_index(olds, DEFAULT_SLUG@);
    lemma_slug_index(b.accounts, DEFAULT_SLUG@);
    let i = slug_index(olds, DEFAULT_SLUG@);
    let p = slug_index(b.accounts, DEFAULT_SLUG@);
    if i >= 0 {
        assert(b.accounts[i].slug == DEFAULT_SLUG@);
        if p >= 0 && p < i {
            assert(b.accounts[p] == olds[p]);
        }
        assert(p == i);
    } else {
        let n = olds.len() as int;
        assert(b.accounts[n].slug == DEFAULT_SLUG@);
        if p >= 0 && p < n {
            assert(b.accounts[p] == olds[p]);
        }
        assert(p == n);
    }
}

/// The number of cookies of `cs` whose root domain is not empty.
pub open spec fn rooted_count(cs: Seq<ExtensionCookie>) -> nat
    decreases cs.len(),
{
    if cs.len() == 0 {
        0
    } else {
        rooted_count(cs.drop_last()) + if root_domain(cs.last().domain@).len() > 0 {
            1nat
        } else {
            0nat
        }
    }
}

/// Number of cookies over all groups.
pub open spec fn total_cookies(groups: Seq<(String, Vec<ExtensionCookie>)>) -> nat
    decreases groups.len(),
{
    if groups.len() == 0 {
        0
    } else {
        total_cookies(groups.drop_last()) + groups.last().1@.len()
    }
}

/// Sum, over `keys`, of the number of cookies of `cs` with that root.
pub open spec fn keyed_count(cs: Seq<ExtensionCookie>, keys: Seq<Seq<char>>) -> nat
    decreases keys.len(),
{
    if keys.len() == 0 {
        0
    } else {
        keyed_count(cs, keys.drop_last()) + with_root(cs, keys.last()).len()
    }
}

/// Number of cookies of `cs` whose root is one of `keys`.
pub open spec fn in_keys_count(cs: Seq<ExtensionCookie>, keys: Seq<Seq<char>>) -> nat
    decreases cs.len(),
{
    if cs.len() == 0 {
        0
    } else {
        in_keys_count(cs.drop_last(), keys) + if keys.contains(root_domain(cs.last().domain@)) {
            1nat
        } else {
            0nat
        }
    }
}

proof fn lemma_keyed_count_step(cs: Seq<ExtensionCookie>, keys: Seq<Seq<char>>)
    requires
        cs.len() > 0,
        forall|i: int, j: int| 0 <= i < keys.len() && 0 <= j < keys.len() && i != j ==> #[trigger] keys[i] != #[trigger] keys[j],
    ensures
        keyed_count(cs, keys) == keyed_count(cs.drop_last(), keys) + if keys.contains(
            root_domain(cs.last().domain@),
        ) {
            1nat
        } else {
            0nat
        },
    decreases keys.len(),
{
    if keys.len() > 0 {
        let init = keys.drop_last();
        assert forall|i: int, j: int| 0 <= i < init.len() && 0 <= j < init.len() && i != j implies #[trigger] init[i]
            != #[trigger] init[j] by {
            assert(init[i] == keys[i] && init[j] == keys[j]);
        }
        lemma_keyed_count_step(cs, init);
        let r = root_domain(cs.last().domain@);
        if keys.contains(r) {
            let i = choose|i: int| 0 <= i < keys.len() && keys[i] == r;
            if i < keys.len() - 1 {
                assert(init[i] == r);
                assert(keys.last() != r);
            } else {
                assert(!init.contains(r)) by {
                    if init.contains(r) {
                        let j = choose|j: int| 0 <= j < init.len() && init[j] == r;
                        assert(keys[j] == r);
                    }
                }
            }
        } else {
            assert(!init.contains(r)) by {
                if init.contains(r) {
                    let j = choose|j: int| 0 <= j < init.len() && init[j] == r;
                    assert(keys[j] == r);
                }
            }
            assert(keys.last() != r) by {
                assert(keys[keys.len() - 1] == keys.last());
            }
        }
    }
}

proof fn lemma_keyed_count(cs: Seq<ExtensionCookie>, keys: Seq<Seq<char>>)
    requires
        forall|i: int, j: int| 0 <= i < keys.len() && 0 <= j < keys.len() && i != j ==> #[trigger] keys[i] != #[trigger] keys[j],
    ensures
        keyed_count(cs, keys) == in_keys_count(cs, keys),
    decreases cs.len(),
{
    if cs.len() == 0 {
        assert(keyed_count(cs, keys) == 0) by {
            lemma_keyed_count_empty(cs, keys);
        }
    } else {
        lemma_keyed_count_step(cs, keys);
        lemma_keyed_count(cs.drop_last(), keys);
    }
}

proof fn lemma_keyed_count_empty(cs: Seq<ExtensionCookie>, keys: Seq<Seq<char>>)
    requires
        cs.len() == 0,
    ensures
        keyed_count(cs, keys) == 0,
    decreases keys.len(),
{
    if keys.len() > 0 {
        lemma_keyed_count_empty(cs, keys.drop_last());
    }
}

proof fn lemma_in_keys_is_rooted(cs: Seq<ExtensionCookie>, all: Seq<ExtensionCookie>, keys: Seq<Seq<char>>)
    requires
        cs.len() <= all.len(),
        cs == all.take(cs.len() as int),
        forall|i: int| 0 <= i < keys.len() ==> (#[trigger] keys[i]).len() > 0,
        forall|t: int|
            0 <= t < all.len() && root_domain((#[trigger] all[t]).domain@).len() > 0 ==> keys.contains(
                root_domain(all[t].domain@),
            ),
    ensures
        in_keys_count(cs, keys) == rooted_count(cs),
    decreases cs.len(),
{
    if cs.len() > 0 {
        let n = cs.len() - 1;
        assert(cs.drop_last() =~= all.take(n));
        lemma_in_keys_is_rooted(cs.drop_last(), all, keys);
        assert(cs.last() == all[n]);
        let r = root_domain(cs.last().domain@);
        if keys.contains(r) {
            let i = choose|i: int| 0 <= i < keys.len() && keys[i] == r;
            assert(keys[i].len() > 0);
        }
    }
}

proof fn lemma_total_is_keyed(cs: Seq<ExtensionCookie>, groups: Seq<(String, Vec<ExtensionCookie>)>)
    requires
        forall|i: int| 0 <= i < groups.len() ==> (#[trigger] groups[i]).1@ == with_root(cs, groups[i].0@),
    ensures
        total_cookies(groups) == keyed_count(
            cs,
            groups.map_values(|g: (String, Vec<ExtensionCookie>)| g.0@),
        ),
    decreases groups.len(),
{
    if groups.len() > 0 {
        let init = groups.drop_last();
        assert forall|i: int| 0 <= i < init.len() implies (#[trigger] init[i]).1@ == with_root(cs, init[i].0@) by {
            assert(init[i] == groups[i]);
        }
        lemma_total_is_keyed(cs, init);
        assert(groups.map_values(|g: (String, Vec<ExtensionCookie>)| g.0@).drop_last() =~= init.map_values(
            |g: (String, Vec<ExtensionCookie>)| g.0@,
        ));
        let last = groups[groups.len() - 1];
        assert(last.1@ == with_root(cs, last.0@));
    }
}

/// Every cookie whose root domain is not empty is written exactly once: the
/// counts of a grouping add up to the number of such cookies.
pub proof fn lemma_grouping_counts_every_cookie(
    cs: Seq<ExtensionCookie>,
    groups: Seq<(String, Vec<ExtensionCookie>)>,
)
    requires
        is_grouping(cs, groups),
    ensures
        total_cookies(groups) == rooted_count(cs),
{
    let keys = groups.map_values(|g: (String, Vec<ExtensionCookie>)| g.0@);
    lemma_total_is_keyed(cs, groups);
    assert forall|i: int, j: int| 0 <= i < keys.len() && 0 <= j < keys.len() && i != j implies #[trigger] keys[i]
        != #[trigger] keys[j] by {
        if i < j {
            assert(chars_lt(groups[i].0@, groups[j].0@));
            lemma_chars_lt_irreflexive(groups[i].0@);
        } else {
            assert(chars_lt(groups[j].0@, groups[i].0@));
            lemma_chars_lt_irreflexive(groups[j].0@);
        }
    }
    lemma_keyed_count(cs, keys);
    assert forall|t: int|
        0 <= t < cs.len() && root_domain((#[trigger] cs[t]).domain@).len() > 0 implies keys.contains(
        root_domain(cs[t].domain@),
    ) by {
        let i = choose|i: int| 0 <= i < groups.len() && #[trigger] groups[i].0@ == root_domain(cs[t].domain@);
        assert(keys[i] == groups[i].0@);
    }
    assert forall|i: int| 0 <= i < keys.len() implies (#[trigger] keys[i]).len() > 0 by {
        assert(keys[i] == groups[i].0@);
    }
    assert(cs.take(cs.len() as int) =~= cs);
    lemma_in_keys_is_rooted(cs, cs, keys);
}

/// A batch that reported at least one root leaves the registry non-empty, so
/// the migration counts as done afterwards.
pub proof fn lemma_ingest_marks_migrated(
    registry: Map<Seq<char>, BucketView>,
    written: Seq<(Seq<char>, usize)>,
    source: SourceView,
    now: i64,
)
    requires
        distinct_roots(written),
        written.len() > 0,
    ensures
        apply_ingest(registry, written, source, now).dom().contains(written[0].0),
{
    lemma_ingest_pointwise(registry, written, source, now);
    assert(0 <= 0 < written.len() && written[0].0 == written[0].0);
}

/// The roots of a grouping's report are pairwise different.
pub proof fn lemma_grouping_roots_distinct(cs: Seq<ExtensionCookie>, groups: Seq<(String, Vec<ExtensionCookie>)>)
    requires
        is_grouping(cs, groups),
    ensures
        distinct_roots(group_counts(groups)),
{
    let w = group_counts(groups);
    assert forall|i: int, j: int| 0 <= i < w.len() && 0 <= j < w.len() && i != j implies #[trigger] w[i].0
        != #[trigger] w[j].0 by {
        if i < j {
            assert(chars_lt(groups[i].0@, groups[j].0@));
        } else {
            assert(chars_lt(groups[j].0@, groups[i].0@));
        }
        lemma_chars_lt_irreflexive(groups[i].0@);
        lemma_chars_lt_irreflexive(groups[j].0@);
    }
}

proof fn lemma_with_root_members(cs: Seq<ExtensionCookie>, k: Seq<char>)
    ensures
        with_root(cs, k).len() <= cs.len(),
        with_root(cs, k).len() > 0 ==> exists|t: int| 0 <= t < cs.len() && root_domain((#[trigger] cs[t]).domain@) == k,
    decreases cs.len(),
{
    if cs.len() > 0 {
        lemma_with_root_members(cs.drop_last(), k);
        if with_root(cs.drop_last(), k).len() > 0 {
            let t = choose|t: int| 0 <= t < cs.drop_last().len() && root_domain((#[trigger] cs.drop_last()[t]).domain@) == k;
            assert(cs[t] == cs.drop_last()[t]);
        }
        if root_domain(cs.last().domain@) == k {
            assert(root_domain(cs[cs.len() - 1].domain@) == k);
        }
    }
}

/// Whether `k` is the root domain of one of the cookies of `cs`.
pub open spec fn is_root_of_some(cs: Seq<ExtensionCookie>, k: Seq<char>) -> bool {
    exists|t: int| 0 <= t < cs.len() && root_domain((#[trigger] cs[t]).domain@) == k
}

/// The roots of a grouping are exactly the non-empty roots of its cookies:
/// every group's root is the root of one of the cookies.
pub proof fn lemma_grouping_roots_are_cookie_roots(
    cs: Seq<ExtensionCookie>,
    groups: Seq<(String, Vec<ExtensionCookie>)>,
)
    requires
        is_grouping(cs, groups),
    ensures
        forall|i: int| 0 <= i < groups.len() ==> is_root_of_some(cs, (#[trigger] groups[i]).0@),
{
    assert forall|i: int| 0 <= i < groups.len() implies is_root_of_some(cs, (#[trigger] groups[i]).0@) by {
        let k = groups[i].0@;
        lemma_with_root_members(cs, k);
        assert(groups[i].1@.len() > 0);
    }
}

/// The alias of the primary account after an ingest: the capture's alias
/// hint whenever it gives one; otherwise the alias the account already had,
/// or, for a new primary account, `<display name> · <date>`.
pub proof fn lemma_ingest_alias(
    old: Option<BucketView>,
    root: Seq<char>,
    count: usize,
    source: SourceView,
    now: i64,
)
    ensures
        ({
            let b = ingest_bucket(old, root, count, source, now);
            let olds = match old {
                Some(o) => o.accounts,
                None => Seq::<AccountView>::empty(),
            };
            let p = slug_index(b.accounts, "_default"@);
            let q = slug_index(olds, "_default"@);
            &&& 0 <= p < b.accounts.len()
            &&& b.accounts[p].slug == "_default"@
            &&& (source.alias_hint matches Some(h) ==> b.accounts[p].alias == h)
            &&& (source.alias_hint is None && q < 0 ==> b.accounts[p].alias == display_name(
                kind_of_domain(root),
            ) + " · "@ + date_text(now as int))
            &&& (source.alias_hint is None && q >= 0 ==> b.accounts[p].alias == olds[q].alias)
            &&& (q < 0 ==> b.accounts.len() == olds.len() + 1 && p == olds.len())
            &&& (q >= 0 ==> p == q)
        }),
{
    let b = ingest_bucket(old, root, count, source, now);
    let olds = match old {
        Some(o) => o.accounts,
        None => Seq::<AccountView>::empty(),
    };
    lemma_ingest_bucket_primary(old, root, count, source, now);
    lemma_slug_index(olds, DEFAULT_SLUG@);
    lemma_slug_index(b.accounts, DEFAULT_SLUG@);
    let q = slug_index(olds, DEFAULT_SLUG@);
    let p = slug_index(b.accounts, DEFAULT_SLUG@);
    if q >= 0 {
        assert(b.accounts[q].slug == DEFAULT_SLUG@);
        if p < q {
            assert(b.accounts[p] == olds[p]);
        }
    } else {
        let n = olds.len() as int;
        assert(b.accounts[n].slug == DEFAULT_SLUG@);
        if p < n {
            assert(b.accounts[p] == olds[p]);
        }
    }
}

} // verus!
