use cookie_manager::accounts::{
    has_been_migrated, legacy_migration_source, remove_account, rename_account, RegistryError,
};
use cookie_manager::alias::{human_date, platform_display};
use cookie_manager::ingest::{group_by_root, ingest_batch};
use cookie_manager::layout::{
    account_file, account_path_for_consumer, bucket_dir, cookies_root, meta_path, migrate_path,
    safe_domain_segment, safe_slug_segment, trash_dir, trash_file_name, StoragePath, DEFAULT_SLUG,
};
use cookie_manager::netscape::{format_cookie_line, render_account_file, sanitize_field, ExtensionCookie};
use cookie_manager::platform::PlatformKind;
use cookie_manager::registry::{AccountEntry, BucketEntry, CookieRegistry, IngestSource};

fn fake_cookie(domain: &str, name: &str, value: &str) -> ExtensionCookie {
    ExtensionCookie {
        domain: domain.to_string(),
        http_only: false,
        path: "/".to_string(),
        secure: true,
        expires: 1830000000,
        name: name.to_string(),
        value: value.to_string(),
        host_only: None,
        same_site: None,
    }
}

fn components(p: &StoragePath) -> Vec<&str> {
    p.components.iter().map(|s| s.as_str()).collect()
}

#[test]
fn safe_domain_strips_unsafe() {
    assert_eq!(safe_domain_segment(".YouTube.Com"), "youtube.com");
    assert_eq!(safe_domain_segment("foo/bar"), "foo_bar");
}

#[test]
fn safe_slug_handles_empty_and_unsafe() {
    assert_eq!(safe_slug_segment(""), DEFAULT_SLUG);
    assert_eq!(safe_slug_segment("My Account / WTF"), "my-account---wtf");
}

#[test]
fn format_cookie_line_matches_netscape() {
    let c = fake_cookie(".youtube.com", "SID", "abc");
    let line = format_cookie_line(&c, 0);
    let parts: Vec<&str> = line.trim().split('\t').collect();
    assert_eq!(parts.len(), 7);
    assert_eq!(parts[0], ".youtube.com");
    assert_eq!(parts[1], "TRUE");
    assert_eq!(parts[5], "SID");
    assert_eq!(parts[6], "abc");
}

#[test]
fn format_cookie_line_host_only_flag() {
    let mut c = fake_cookie("youtube.com", "k", "v");
    c.host_only = Some(true);
    let line = format_cookie_line(&c, 0);
    let parts: Vec<&str> = line.trim().split('\t').collect();
    assert_eq!(parts[0], "youtube.com");
    assert_eq!(parts[1], "FALSE");
}

#[test]
fn cookie_line_exact_text() {
    let c = fake_cookie(".youtube.com", "SID", "abc");
    assert_eq!(format_cookie_line(&c, 0), ".youtube.com\tTRUE\t/\tTRUE\t1830000000\tSID\tabc\n");
    let mut s = fake_cookie("example.org", "a\tb", "c\nd\re");
    s.expires = 0;
    s.secure = false;
    s.http_only = true;
    assert_eq!(format_cookie_line(&s, 42), "#HttpOnly_example.org\tFALSE\t/\tFALSE\t42\tab\tcde\n");
    let mut t = fake_cookie("example.org", "n", "v");
    t.host_only = Some(false);
    assert_eq!(format_cookie_line(&t, 0), ".example.org\tTRUE\t/\tTRUE\t1830000000\tn\tv\n");
    let mut u = fake_cookie(".example.org", "n", "v");
    u.host_only = Some(true);
    u.expires = -1;
    assert_eq!(format_cookie_line(&u, 0), "example.org\tFALSE\t/\tTRUE\t18446744073709551615\tn\tv\n");
}

#[test]
fn sanitize_drops_breaks_and_is_idempotent() {
    assert_eq!(sanitize_field("a\tb\nc\rd"), "abcd");
    let once = sanitize_field("x\t\ty");
    assert_eq!(sanitize_field(&once), once);
}

#[test]
fn every_cookie_line_has_seven_fields() {
    let mut c = fake_cookie("we\tird\n.example", "na\rme", "va\tl");
    c.http_only = true;
    let line = format_cookie_line(&c, 7);
    assert!(line.ends_with('\n'));
    assert_eq!(line.matches('\n').count(), 1);
    assert_eq!(line.matches('\r').count(), 0);
    assert_eq!(line.trim_end_matches('\n').split('\t').count(), 7);
}

#[test]
fn account_file_has_header_then_lines() {
    let cookies = vec![fake_cookie(".a.com", "x", "1"), fake_cookie("b.a.com", "y", "2")];
    let text = render_account_file(&cookies, 0);
    assert_eq!(
        text,
        "# Netscape HTTP Cookie File\n.a.com\tTRUE\t/\tTRUE\t1830000000\tx\t1\nb.a.com\tFALSE\t/\tTRUE\t1830000000\ty\t2\n"
    );
    assert_eq!(render_account_file(&[], 0), "# Netscape HTTP Cookie File\n");
}

#[test]
fn layout_paths() {
    let root = cookies_root(Some("/data/app".to_string()));
    assert_eq!(components(&root), vec!["/data/app", "cookies"]);
    assert_eq!(components(&cookies_root(None)), vec![".", "cookies"]);
    assert_eq!(components(&bucket_dir(&root, ".YouTube.com")), vec!["/data/app", "cookies", "youtube.com"]);
    assert_eq!(
        components(&account_file(&root, "youtube.com", "Main")),
        vec!["/data/app", "cookies", "youtube.com", "main.txt"]
    );
    assert_eq!(components(&meta_path(&root)), vec!["/data/app", "cookies", "_meta.json"]);
    assert_eq!(components(&trash_dir(&root)), vec!["/data/app", "cookies", "_trash"]);
    assert_eq!(
        components(&account_path_for_consumer(&root, "youtube.com", None)),
        vec!["/data/app", "cookies", "youtube.com", "_default.txt"]
    );
    assert_eq!(
        components(&account_path_for_consumer(&root, "youtube.com", Some("alt"))),
        vec!["/data/app", "cookies", "youtube.com", "alt.txt"]
    );
    assert_eq!(
        components(&migrate_path(&root, Some("chrome-extension-cookies.txt".to_string()))),
        vec!["/data/app", "cookies", ".migrated", "chrome-extension-cookies.txt"]
    );
    assert_eq!(components(&migrate_path(&root, None)), vec!["/data/app", "cookies", ".migrated", "legacy"]);
}

#[test]
fn segments_hold_only_safe_characters() {
    let d = safe_domain_segment("../..\\evil/ päth");
    assert!(d.chars().all(|c| c.is_ascii_alphanumeric() || c == '.' || c == '-' || c == '_'));
    assert_eq!(d, "_.._evil__p_th");
    let s = safe_slug_segment("..");
    assert_eq!(s, "--");
    assert!(!s.is_empty());
}

#[test]
fn trash_name_format() {
    assert_eq!(trash_file_name(".YouTube.com", "", 1700000000123), "youtube.com___default__1700000000123.txt");
    assert_eq!(trash_file_name("a.b", "X Y", -5), "a.b__x-y__-5.txt");
}

#[test]
fn human_date_approximate_calendar() {
    assert_eq!(human_date(0), "1970-01-01");
    assert_eq!(human_date(-1), "1970-01-01");
    assert_eq!(human_date(1700000000000), "2023-12-01");
    assert_eq!(human_date(3456000000), "1970-02-11");
    assert_eq!(human_date(-1000), "584942419325-01-27");
}

#[test]
fn platform_display_names() {
    assert_eq!(platform_display(PlatformKind::XTwitter), "X");
    assert_eq!(platform_display(PlatformKind::Generic), "Site");
    assert_eq!(platform_display(PlatformKind::YoutubeMusic), "YouTube Music");
}

fn source(url: Option<&str>, label: &str, alias: Option<&str>) -> IngestSource {
    IngestSource {
        source_url: url.map(|s| s.to_string()),
        source_label: label.to_string(),
        alias_hint: alias.map(|s| s.to_string()),
    }
}

#[test]
fn grouping_sorts_roots_and_drops_empty_ones() {
    let cookies = vec![
        fake_cookie("www.youtube.com", "a", "1"),
        fake_cookie(".", "dropped", "0"),
        fake_cookie("api.soundcloud.com", "b", "2"),
        fake_cookie(".youtube.com", "c", "3"),
    ];
    let groups = group_by_root(&cookies);
    let roots: Vec<&str> = groups.iter().map(|g| g.0.as_str()).collect();
    assert_eq!(roots, vec!["soundcloud.com", "youtube.com"]);
    let names: Vec<&str> = groups[1].1.iter().map(|c| c.name.as_str()).collect();
    assert_eq!(names, vec!["a", "c"]);
    let total: usize = groups.iter().map(|g| g.1.len()).sum();
    assert_eq!(total, 3);
}

#[test]
fn ingest_creates_buckets_with_primary_accounts() {
    let cookies = vec![
        fake_cookie("www.youtube.com", "a", "1"),
        fake_cookie("api.soundcloud.com", "b", "2"),
        fake_cookie(".youtube.com", "c", "3"),
    ];
    let plan = ingest_batch(&cookies, source(Some("https://youtube.com"), "Extension", None), CookieRegistry::new(), 0);
    assert_eq!(plan.written, vec![("soundcloud.com".to_string(), 1), ("youtube.com".to_string(), 2)]);
    assert_eq!(plan.files.len(), 2);
    assert_eq!(plan.registry.len(), 2);
    let yt = plan.registry.get("youtube.com").unwrap();
    assert_eq!(yt.platform_kind, "youtube");
    assert_eq!(yt.accounts.len(), 1);
    let a = &yt.accounts[0];
    assert_eq!(a.slug, "_default");
    assert_eq!(a.alias, "YouTube · 1970-01-01");
    assert_eq!(a.cookie_count, 2);
    assert_eq!(a.captured_at_ms, 0);
    assert_eq!(a.source_url.as_deref(), Some("https://youtube.com"));
    assert_eq!(a.source_label.as_deref(), Some("Extension"));
    assert_eq!(a.last_used_at_ms, None);
    assert!(has_been_migrated(&plan.registry));
    assert!(!has_been_migrated(&CookieRegistry::new()));
}

#[test]
fn ingest_refreshes_existing_primary_account() {
    let mut reg = CookieRegistry::new();
    reg.insert(
        "youtube.com".to_string(),
        BucketEntry {
            platform_kind: "generic".to_string(),
            accounts: vec![
                AccountEntry {
                    slug: "work".to_string(),
                    alias: "Work".to_string(),
                    source_url: None,
                    source_label: None,
                    captured_at_ms: 5,
                    cookie_count: 9,
                    last_used_at_ms: Some(6),
                },
                AccountEntry {
                    slug: "_default".to_string(),
                    alias: "Mine".to_string(),
                    source_url: Some("https://old".to_string()),
                    source_label: None,
                    captured_at_ms: 1,
                    cookie_count: 3,
                    last_used_at_ms: Some(2),
                },
            ],
        },
    );
    reg.insert(
        "other.org".to_string(),
        BucketEntry { platform_kind: "generic".to_string(), accounts: Vec::new() },
    );
    let cookies = vec![fake_cookie("m.youtube.com", "a", "1")];
    let plan = ingest_batch(&cookies, source(None, "Import", None), reg, 1700000000000);
    assert_eq!(plan.written, vec![("youtube.com".to_string(), 1)]);
    let yt = plan.registry.get("youtube.com").unwrap();
    assert_eq!(yt.platform_kind, "youtube");
    assert_eq!(yt.accounts.len(), 2);
    assert_eq!(yt.accounts[0].alias, "Work");
    assert_eq!(yt.accounts[0].cookie_count, 9);
    let p = &yt.accounts[1];
    assert_eq!(p.alias, "Mine");
    assert_eq!(p.cookie_count, 1);
    assert_eq!(p.captured_at_ms, 1700000000000);
    assert_eq!(p.source_url.as_deref(), Some("https://old"));
    assert_eq!(p.source_label.as_deref(), Some("Import"));
    assert_eq!(p.last_used_at_ms, Some(2));
    assert!(plan.registry.get("other.org").is_some());

    let plan2 = ingest_batch(&cookies, source(Some("https://new"), "Again", Some("Renamed")), plan.registry, 7);
    let p2 = &plan2.registry.get("youtube.com").unwrap().accounts[1];
    assert_eq!(p2.alias, "Renamed");
    assert_eq!(p2.source_url.as_deref(), Some("https://new"));
}

#[test]
fn ingest_of_nothing_changes_nothing() {
    let plan = ingest_batch(&[], source(None, "x", None), CookieRegistry::new(), 0);
    assert!(plan.written.is_empty());
    assert!(plan.files.is_empty());
    assert!(plan.registry.is_empty());
}

fn registry_with_two_accounts() -> CookieRegistry {
    let cookies = vec![fake_cookie("youtube.com", "a", "1")];
    let mut reg = ingest_batch(&cookies, source(None, "x", None), CookieRegistry::new(), 0).registry;
    let mut bucket = reg.get("youtube.com").unwrap().clone();
    bucket.accounts.push(AccountEntry {
        slug: "alt".to_string(),
        alias: "Alt".to_string(),
        source_url: None,
        source_label: None,
        captured_at_ms: 0,
        cookie_count: 0,
        last_used_at_ms: None,
    });
    reg.insert("youtube.com".to_string(), bucket);
    reg
}

#[test]
fn rename_account_sets_alias_or_reports_what_is_missing() {
    let mut reg = registry_with_two_accounts();
    assert!(rename_account(&mut reg, "youtube.com", "alt", "Second").is_ok());
    let b = reg.get("youtube.com").unwrap();
    assert_eq!(b.accounts[1].alias, "Second");
    assert_eq!(b.accounts[0].alias, "YouTube · 1970-01-01");

    match rename_account(&mut reg, "nope.com", "alt", "x") {
        Err(e @ RegistryError::BucketNotFound(_)) => assert_eq!(e.message(), "bucket not found: nope.com"),
        _ => panic!("expected a missing bucket"),
    }
    match rename_account(&mut reg, "youtube.com", "ghost", "x") {
        Err(e @ RegistryError::AccountNotFound(_)) => assert_eq!(e.message(), "account not found: ghost"),
        _ => panic!("expected a missing account"),
    }
    assert_eq!(reg.get("youtube.com").unwrap().accounts[1].alias, "Second");
}

#[test]
fn removing_accounts_drops_empty_buckets() {
    let mut reg = registry_with_two_accounts();
    remove_account(&mut reg, "youtube.com", "alt");
    assert_eq!(reg.get("youtube.com").unwrap().accounts.len(), 1);
    remove_account(&mut reg, "nope.com", "alt");
    assert_eq!(reg.len(), 1);
    remove_account(&mut reg, "youtube.com", "_default");
    assert!(reg.get("youtube.com").is_none());
    assert!(reg.is_empty());
    assert!(!has_been_migrated(&reg));
}

#[test]
fn registry_insert_replaces_and_entries_are_unique() {
    let mut reg = CookieRegistry::new();
    reg.insert("a".to_string(), BucketEntry { platform_kind: "one".to_string(), accounts: Vec::new() });
    reg.insert("b".to_string(), BucketEntry { platform_kind: "two".to_string(), accounts: Vec::new() });
    reg.insert("a".to_string(), BucketEntry { platform_kind: "three".to_string(), accounts: Vec::new() });
    assert_eq!(reg.len(), 2);
    assert_eq!(reg.get("a").unwrap().platform_kind, "three");
    assert_eq!(reg.entries().len(), 2);
    reg.remove("a");
    assert!(reg.get("a").is_none());
    assert_eq!(reg.len(), 1);
}

#[test]
fn migration_source_label() {
    let s = legacy_migration_source();
    assert_eq!(s.source_label, "Migrated from legacy single-file storage");
    assert!(s.source_url.is_none());
    assert!(s.alias_hint.is_none());
}

#[test]
fn defaults_are_empty() {
    assert!(CookieRegistry::default().is_empty());
    let b = BucketEntry::default();
    assert!(b.platform_kind.is_empty());
    assert!(b.accounts.is_empty());
}

#[test]
fn batch_without_roots_reports_nothing() {
    let cookies = vec![fake_cookie(".", "a", "1"), fake_cookie("", "b", "2"), fake_cookie("...", "c", "3")];
    assert!(group_by_root(&cookies).is_empty());
    let plan = ingest_batch(&cookies, source(None, "t", None), CookieRegistry::new(), 0);
    assert!(plan.written.is_empty());
    assert!(plan.files.is_empty());
    assert!(plan.registry.is_empty());
}

#[test]
fn ingest_report_for_mixed_batch() {
    let cookies = vec![
        fake_cookie("www.youtube.com", "a", "1"),
        fake_cookie(".youtube.com", "b", "2"),
        fake_cookie("api.soundcloud.com", "c", "3"),
        fake_cookie(".", "d", "4"),
    ];
    let plan = ingest_batch(&cookies, source(None, "t", None), CookieRegistry::new(), 0);
    assert_eq!(plan.written, vec![("soundcloud.com".to_string(), 1usize), ("youtube.com".to_string(), 2usize)]);
    for (root, n) in plan.written.iter() {
        assert_eq!(*n, cookies.iter().filter(|c| cookie_manager::root_domain_of(&c.domain) == *root).count());
    }
}

#[test]
fn session_expiry_is_one_day_later() {
    assert_eq!(cookie_manager::netscape::session_expiry(1_000), 87_400);
}

#[test]
fn ascii_case_and_dots_do_not_change_root_or_segment() {
    assert_eq!(cookie_manager::root_domain_of("..A.B.Example.COM"), "example.com");
    let once = cookie_manager::root_domain_of("x.y.Example.com");
    assert_eq!(cookie_manager::root_domain_of(&once), once);
    assert_eq!(safe_domain_segment("..EVIL"), "evil");
    assert_ne!(safe_domain_segment("..."), "..");
}

#[test]
fn registry_entries_come_in_key_order() {
    let mut reg = CookieRegistry::new();
    for k in ["youtube.com", "a.org", "soundcloud.com", "b.net", "a.org"] {
        reg.insert(k.to_string(), BucketEntry { platform_kind: "generic".to_string(), accounts: Vec::new() });
    }
    let keys: Vec<&str> = reg.entries().iter().map(|(k, _)| k.as_str()).collect();
    assert_eq!(keys, vec!["a.org", "b.net", "soundcloud.com", "youtube.com"]);
    reg.remove("b.net");
    let keys: Vec<&str> = reg.entries().iter().map(|(k, _)| k.as_str()).collect();
    assert_eq!(keys, vec!["a.org", "soundcloud.com", "youtube.com"]);
}
