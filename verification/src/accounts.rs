//! Edits of the registry that the settings screen makes: renaming an account,
//! forgetting an account moved to the trash, and the migration source.
use vstd::prelude::*;

use crate::registry::{
    account_views, clone_accounts, find_slug, lemma_slug_index, slug_index, AccountEntry,
    AccountView, BucketEntry, BucketView, CookieRegistry, IngestSource,
};
use crate::text::{push_str, str_eq, text_of};

verus! {

/// Why a registry edit was refused.
#[derive(Debug)]
pub enum RegistryError {
    /// No bucket has this domain.
    BucketNotFound(String),
    /// The bucket has no account with this slug.
    AccountNotFound(String),
}

impl RegistryError {
    /// The error as a sentence: `bucket not found: <domain>` or
    /// `account not found: <slug>`.
    pub fn message(&self) -> (r: String)
        ensures
            r@ == match self {
                RegistryError::BucketNotFound(d) => "bucket not found: "@ + d@,
                RegistryError::AccountNotFound(s) => "account not found: "@ + s@,
            },
    {
        let mut r = String::new();
        match self {
            RegistryError::BucketNotFound(d) => {
                push_str(&mut r, "bucket not found: ");
                push_str(&mut r, d.as_str());
            },
            RegistryError::AccountNotFound(s) => {
                push_str(&mut r, "account not found: ");
                push_str(&mut r, s.as_str());
            },
        }
        assert(r@ =~= match self {
            RegistryError::BucketNotFound(d) => "bucket not found: "@ + d@,
            RegistryError::AccountNotFound(s) => "account not found: "@ + s@,
        });
        r
    }
}

/// `b` with the alias of its account at `i` replaced.
pub open spec fn renamed_bucket(b: BucketView, i: int, alias: Seq<char>) -> BucketView {
    let a = b.accounts[i];
    BucketView {
        platform_kind: b.platform_kind,
        accounts: b.accounts.update(
            i,
            AccountView {
                slug: a.slug,
                alias,
                source_url: a.source_url,
                source_label: a.source_label,
                captured_at_ms: a.captured_at_ms,
                cookie_count: a.cookie_count,
                last_used_at_ms: a.last_used_at_ms,
            },
        ),
    }
}

/// Gives the first account with `slug` in the bucket of `domain` the alias
/// `new_alias`. Refused, with the registry unchanged, when there is no such
/// bucket or no such account in it.
pub fn rename_account(registry: &mut CookieRegistry, domain: &str, slug: &str, new_alias: &str) -> (r:
    Result<(), RegistryError>)
    ensures
        match r {
            Ok(()) => {
                &&& old(registry)@.dom().contains(domain@)
                &&& slug_index(old(registry)@[domain@].accounts, slug@) >= 0
                &&& final(registry)@ == old(registry)@.insert(
                    domain@,
                    renamed_bucket(
                        old(registry)@[domain@],
                        slug_index(old(registry)@[domain@].accounts, slug@),
                        new_alias@,
                    ),
                )
            },
            Err(RegistryError::BucketNotFound(d)) => {
                &&& !old(registry)@.dom().contains(domain@)
                &&& d@ == domain@
                &&& final(registry)@ == old(registry)@
            },
            Err(RegistryError::AccountNotFound(s)) => {
                &&& old(registry)@.dom().contains(domain@)
                &&& slug_index(old(registry)@[domain@].accounts, slug@) < 0
                &&& s@ == slug@
                &&& final(registry)@ == old(registry)@
            },
        },
{
    let bucket = match registry.get(domain) {
        Some(b) => b,
        None => {
            return Err(RegistryError::BucketNotFound(text_of(domain)));
        },
    };
    let mut accounts = clone_accounts(&bucket.accounts);
    let platform_kind = bucket.platform_kind.clone();
    let ghost olds = account_views(accounts@);
    proof {
        lemma_slug_index(olds, slug@);
    }
    match find_slug(&accounts, slug) {
        None => Err(RegistryError::AccountNotFound(text_of(slug))),
        Some(i) => {
            let mut a = accounts[i].clone();
            a.alias = text_of(new_alias);
            accounts.set(i, a);
            let ghost ob = registry@[domain@];
            let nb = BucketEntry { platform_kind, accounts };
            assert(nb@ =~= renamed_bucket(ob, i as int, new_alias@)) by {
                assert(account_views(nb.accounts@) =~= renamed_bucket(ob, i as int, new_alias@).accounts);
            }
            registry.insert(text_of(domain), nb);
            Ok(())
        },
    }
}

/// The accounts other than those with `slug`, in order.
pub open spec fn without_slug(accounts: Seq<AccountView>, slug: Seq<char>) -> Seq<AccountView>
    decreases accounts.len(),
{
    if accounts.len() == 0 {
        accounts
    } else if accounts.last().slug == slug {
        without_slug(accounts.drop_last(), slug)
    } else {
        without_slug(accounts.drop_last(), slug).push(accounts.last())
    }
}

/// The registry after the accounts with `slug` left the bucket of `domain`:
/// a bucket left without accounts is dropped.
pub open spec fn registry_without(
    registry: Map<Seq<char>, BucketView>,
    domain: Seq<char>,
    slug: Seq<char>,
) -> Map<Seq<char>, BucketView> {
    if registry.dom().contains(domain) {
        let rest = without_slug(registry[domain].accounts, slug);
        if rest.len() == 0 {
            registry.remove(domain)
        } else {
            registry.insert(domain, BucketView { platform_kind: registry[domain].platform_kind, accounts: rest })
        }
    } else {
        registry
    }
}

/// What `without_slug` keeps: no account with `slug`, every other account,
/// in order.
pub proof fn lemma_without_slug(accounts: Seq<AccountView>, slug: Seq<char>)
    ensures
        forall|i: int| 0 <= i < without_slug(accounts, slug).len() ==> (#[trigger] without_slug(accounts, slug)[i]).slug != slug,
        forall|i: int| 0 <= i < without_slug(accounts, slug).len() ==> accounts.contains(#[trigger] without_slug(accounts, slug)[i]),
        forall|i: int| 0 <= i < accounts.len() && (#[trigger] accounts[i]).slug != slug ==> without_slug(accounts, slug).contains(accounts[i]),
    decreases accounts.len(),
{
    if accounts.len() > 0 {
        let init = accounts.drop_last();
        lemma_without_slug(init, slug);
        let w = without_slug(accounts, slug);
        let wi = without_slug(init, slug);
        assert forall|i: int| 0 <= i < w.len() implies accounts.contains(#[trigger] w[i]) by {
            if i < wi.len() {
                assert(w[i] == wi[i]);
                let j = choose|j: int| 0 <= j < init.len() && init[j] == wi[i];
                assert(accounts[j] == init[j]);
            } else {
                assert(accounts[accounts.len() - 1] == w[i]);
            }
        }
        assert forall|i: int| 0 <= i < accounts.len() && (#[trigger] accounts[i]).slug != slug implies w.contains(accounts[i]) by {
            if i < init.len() {
                assert(init[i] == accounts[i]);
                let j = choose|j: int| 0 <= j < wi.len() && wi[j] == init[i];
                assert(w[j] == wi[j]);
            } else {
                assert(w[w.len() - 1] == accounts[i]);
            }
        }
        assert forall|i: int| 0 <= i < w.len() implies (#[trigger] w[i]).slug != slug by {
            if i < wi.len() {
                assert(w[i] == wi[i]);
            }
        }
    }
}

/// After the accounts with `slug` leave the bucket of `domain`, no account
/// with that slug is left there, the bucket is gone if it had no other
/// account, and every other bucket is as it was.
pub proof fn lemma_registry_without(
    registry: Map<Seq<char>, BucketView>,
    domain: Seq<char>,
    slug: Seq<char>,
)
    ensures
        ({
            let r = registry_without(registry, domain, slug);
            &&& r.dom().contains(domain) ==> r[domain].accounts.len() > 0 && forall|i: int|
                0 <= i < r[domain].accounts.len() ==> (#[trigger] r[domain].accounts[i]).slug != slug
            &&& forall|k: Seq<char>| k != domain ==> (#[trigger] r.dom().contains(k) <==> registry.dom().contains(k))
            &&& forall|k: Seq<char>| k != domain && registry.dom().contains(k) ==> #[trigger] r[k] == registry[k]
        }),
{
    if registry.dom().contains(domain) {
        lemma_without_slug(registry[domain].accounts, slug);
    }
}

proof fn lemma_without_slug_is_filter(accounts: Seq<AccountView>, slug: Seq<char>)
    ensures
        without_slug(accounts, slug) == accounts.filter(|a: AccountView| a.slug != slug),
    decreases accounts.len(),
{
    reveal(Seq::filter);
    if accounts.len() > 0 {
        lemma_without_slug_is_filter(accounts.drop_last(), slug);
    }
}

/// Removing the accounts with `slug` from the bucket of `domain` keeps the
/// bucket exactly when it holds an account with another slug; it then holds
/// exactly those other accounts, in their order, under the same platform
/// kind. A registry without that bucket is left as it is.
pub proof fn lemma_remove_keeps_other_accounts(
    registry: Map<Seq<char>, BucketView>,
    domain: Seq<char>,
    slug: Seq<char>,
)
    ensures
        ({
            let r = registry_without(registry, domain, slug);
            &&& !registry.dom().contains(domain) ==> r == registry
            &&& registry.dom().contains(domain) ==> {
                let accs = registry[domain].accounts;
                let others = accs.filter(|a: AccountView| a.slug != slug);
                &&& r.dom().contains(domain) == (exists|i: int| 0 <= i < accs.len() && #[trigger] accs[i].slug != slug)
                &&& r.dom().contains(domain) ==> r[domain].accounts == others && r[domain].platform_kind
                    == registry[domain].platform_kind
            }
        }),
{
    if registry.dom().contains(domain) {
        let accs = registry[domain].accounts;
        lemma_without_slug_is_filter(accs, slug);
        lemma_without_slug(accs, slug);
        let w = without_slug(accs, slug);
        if exists|i: int| 0 <= i < accs.len() && #[trigger] accs[i].slug != slug {
            let i = choose|i: int| 0 <= i < accs.len() && #[trigger] accs[i].slug != slug;
            assert(w.contains(accs[i]));
        }
        if w.len() > 0 {
            assert(accs.contains(w[0]));
            let j = choose|j: int| 0 <= j < accs.len() && accs[j] == w[0];
            assert(accs[j].slug != slug);
        }
    }
}

/// Removes every account with `slug` from the bucket of `domain`, and the
/// bucket itself when no account is left (the registry side of moving an
/// account to the trash).
pub fn remove_account(registry: &mut CookieRegistry, domain: &str, slug: &str)
    ensures
        final(registry)@ == registry_without(old(registry)@, domain@, slug@),
{
    let bucket = match registry.get(domain) {
        Some(b) => b,
        None => {
            return;
        },
    };
    let ghost accs = account_views(bucket.accounts@);
    let mut kept: Vec<AccountEntry> = Vec::new();
    let mut i: usize = 0;
    while i < bucket.accounts.len()
        invariant
            i <= bucket.accounts@.len(),
            accs == account_views(bucket.accounts@),
            account_views(kept@) == without_slug(accs.take(i as int), slug@),
        decreases bucket.accounts@.len() - i,
    {
        let a = &bucket.accounts[i];
        if !str_eq(a.slug.as_str(), slug) {
            kept.push(a.clone());
        }
        assert(accs.take(i + 1).drop_last() =~= accs.take(i as int));
        i = i + 1;
        assert(account_views(kept@) =~= without_slug(accs.take(i as int), slug@));
    }
    assert(accs.take(accs.len() as int) =~= accs);
    if kept.len() == 0 {
        registry.remove(domain);
    } else {
        let nb = BucketEntry { platform_kind: bucket.platform_kind.clone(), accounts: kept };
        registry.insert(text_of(domain), nb);
    }
}

/// Whether the registry records any bucket (a migration has already run).
pub fn has_been_migrated(registry: &CookieRegistry) -> (r: bool)
    ensures
        r == !(registry@.dom() =~= Set::<Seq<char>>::empty()),
{
    !registry.is_empty()
}

/// The source recorded for cookies migrated from the legacy single file.
pub fn legacy_migration_source() -> (s: IngestSource)
    ensures
        s@.source_url is None,
        s@.source_label == "Migrated from legacy single-file storage"@,
        s@.alias_hint is None,
{
    IngestSource {
        source_url: None,
        source_label: text_of("Migrated from legacy single-file storage"),
        alias_hint: None,
    }
}

} // verus!
