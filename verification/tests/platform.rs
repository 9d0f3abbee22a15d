use cookie_manager::platform::{platform_of_root, root_domain_of, root_of_normalized, PlatformKind};

#[test]
fn youtube_variants_map_correctly() {
    assert_eq!(PlatformKind::from_domain("youtube.com"), PlatformKind::Youtube);
    assert_eq!(PlatformKind::from_domain(".youtube.com"), PlatformKind::Youtube);
    assert_eq!(PlatformKind::from_domain("www.youtube.com"), PlatformKind::Youtube);
    assert_eq!(PlatformKind::from_domain("music.youtube.com"), PlatformKind::YoutubeMusic);
    assert_eq!(PlatformKind::from_domain("youtu.be"), PlatformKind::Youtube);
}

#[test]
fn twitter_x_share_kind() {
    assert_eq!(PlatformKind::from_domain("x.com"), PlatformKind::XTwitter);
    assert_eq!(PlatformKind::from_domain("twitter.com"), PlatformKind::XTwitter);
}

#[test]
fn unknown_falls_to_generic() {
    assert_eq!(PlatformKind::from_domain("example.com"), PlatformKind::Generic);
    assert_eq!(PlatformKind::from_domain("bandcamp.com"), PlatformKind::Generic);
}

#[test]
fn root_strips_subdomain() {
    assert_eq!(root_domain_of("music.youtube.com"), "youtube.com");
    assert_eq!(root_domain_of("api.soundcloud.com"), "soundcloud.com");
    assert_eq!(root_domain_of("localhost"), "localhost");
}

#[test]
fn root_handles_leading_dot() {
    assert_eq!(root_domain_of(".youtube.com"), "youtube.com");
}

#[test]
fn from_domain_is_case_insensitive_and_trims_dots() {
    assert_eq!(PlatformKind::from_domain("..WWW.YouTube.COM"), PlatformKind::Youtube);
    assert_eq!(PlatformKind::from_domain("Music.YouTube.com"), PlatformKind::YoutubeMusic);
    assert_eq!(PlatformKind::from_domain("old.reddit.com"), PlatformKind::Reddit);
    assert_eq!(PlatformKind::from_domain("bsky.social"), PlatformKind::Bluesky);
    assert_eq!(PlatformKind::from_domain("clips.twitch.tv"), PlatformKind::Twitch);
    assert_eq!(PlatformKind::from_domain(""), PlatformKind::Generic);
}

#[test]
fn every_kind_has_a_distinct_name() {
    let kinds = [
        PlatformKind::Youtube,
        PlatformKind::YoutubeMusic,
        PlatformKind::SoundCloud,
        PlatformKind::Spotify,
        PlatformKind::Twitch,
        PlatformKind::Instagram,
        PlatformKind::XTwitter,
        PlatformKind::Vimeo,
        PlatformKind::Tiktok,
        PlatformKind::Bilibili,
        PlatformKind::Reddit,
        PlatformKind::Pinterest,
        PlatformKind::Bluesky,
        PlatformKind::Generic,
    ];
    for (i, a) in kinds.iter().enumerate() {
        for (j, b) in kinds.iter().enumerate() {
            assert_eq!(i == j, a.as_str() == b.as_str());
        }
    }
    assert_eq!(PlatformKind::YoutubeMusic.as_str(), "youtube_music");
    assert_eq!(PlatformKind::XTwitter.as_str(), "x_twitter");
}

#[test]
fn root_keeps_at_most_two_labels() {
    assert_eq!(root_of_normalized("a.b.c.d"), "c.d");
    assert_eq!(root_of_normalized("c.d"), "c.d");
    assert_eq!(root_of_normalized("a..b"), ".b");
    assert_eq!(root_of_normalized("trailing.dot."), "dot.");
    assert_eq!(root_of_normalized(""), "");
    let once = root_of_normalized("deep.sub.example.co");
    assert_eq!(root_of_normalized(&once), once);
}

#[test]
fn platform_table_of_roots() {
    assert_eq!(platform_of_root("youtube.com"), PlatformKind::Youtube);
    assert_eq!(platform_of_root("spotify.com"), PlatformKind::Spotify);
    assert_eq!(platform_of_root("instagram.com"), PlatformKind::Instagram);
    assert_eq!(platform_of_root("vimeo.com"), PlatformKind::Vimeo);
    assert_eq!(platform_of_root("tiktok.com"), PlatformKind::Tiktok);
    assert_eq!(platform_of_root("bilibili.com"), PlatformKind::Bilibili);
    assert_eq!(platform_of_root("pinterest.com"), PlatformKind::Pinterest);
    assert_eq!(platform_of_root("bsky.app"), PlatformKind::Bluesky);
    assert_eq!(platform_of_root("soundcloud.com"), PlatformKind::SoundCloud);
    assert_eq!(platform_of_root("YouTube.com"), PlatformKind::Generic);
}
