use dotnet_tool::catalog::{build_catalog, collect_sdk_versions, derive_aliases, resolve_alias, sort_versions_desc, CatalogError};
use dotnet_tool::channels::retain_channels;
use dotnet_tool::config::DotnetToolConfig;
use dotnet_tool::metadata::{ChannelReleases, ReleaseChannel, ReleaseEntry, SdkEntry};
use dotnet_tool::numbers::{channel_of_version, decimal_string, parse_channel_key, parse_u64};

fn channel(version: &str, sdk: Option<&str>, kind: Option<&str>, phase: Option<&str>) -> ReleaseChannel {
    ReleaseChannel {
        channel_version: version.to_string(),
        latest_sdk: sdk.map(|s| s.to_string()),
        release_type: kind.map(|s| s.to_string()),
        support_phase: phase.map(|s| s.to_string()),
        releases_json: format!("https://example.test/{}/releases.json", version),
    }
}

fn release_list(versions: &[&str]) -> ChannelReleases {
    ChannelReleases {
        releases: versions
            .iter()
            .map(|v| ReleaseEntry {
                release_version: v.to_string(),
                sdk: Some(SdkEntry { version: v.to_string(), files: vec![] }),
            })
            .collect(),
    }
}

fn strings(v: &[&str]) -> Vec<String> {
    v.iter().map(|s| s.to_string()).collect()
}

fn names(cs: &[ReleaseChannel]) -> Vec<String> {
    cs.iter().map(|c| c.channel_version.clone()).collect()
}

#[test]
fn versions_sorted_newest_first() {
    let sorted = sort_versions_desc(strings(&["8.0.100", "8.0.203", "7.0.410"]));
    match sorted {
        Ok(v) => assert_eq!(v, strings(&["8.0.203", "8.0.100", "7.0.410"])),
        Err(_) => panic!("valid versions were refused"),
    }
}

#[test]
fn prereleases_sort_below_their_release() {
    let sorted = sort_versions_desc(strings(&[
        "9.0.100-preview.7.24407.12",
        "9.0.100",
        "9.0.100-rc.1.24452.12",
        "9.0.100-rc.2.24474.11",
        "10.0.100-preview.1.25120.13",
    ]));
    match sorted {
        Ok(v) => assert_eq!(
            v,
            strings(&[
                "10.0.100-preview.1.25120.13",
                "9.0.100",
                "9.0.100-rc.2.24474.11",
                "9.0.100-rc.1.24452.12",
                "9.0.100-preview.7.24407.12",
            ])
        ),
        Err(_) => panic!("valid versions were refused"),
    }
}

#[test]
fn invalid_version_fails_the_sort() {
    match sort_versions_desc(strings(&["8.0.100", "8.0", "7.0.410"])) {
        Err(CatalogError::InvalidVersion(v)) => assert_eq!(v, "8.0"),
        Ok(_) => panic!("an invalid version was accepted"),
    }
}

#[test]
fn empty_version_list_sorts_to_empty() {
    match sort_versions_desc(vec![]) {
        Ok(v) => assert!(v.is_empty()),
        Err(_) => panic!("empty list refused"),
    }
}

#[test]
fn shared_version_listed_once() {
    let lists = vec![release_list(&["8.0.110", "8.0.100"]), release_list(&["8.0.110", "7.0.410"])];
    assert_eq!(collect_sdk_versions(&lists), strings(&["8.0.110", "8.0.100", "7.0.410"]));
    let channels = vec![channel("8.0", Some("8.0.110"), Some("lts"), None)];
    match build_catalog(&channels, &lists) {
        Ok(c) => assert_eq!(c.versions, strings(&["8.0.110", "8.0.100", "7.0.410"])),
        Err(_) => panic!("catalog failed"),
    }
}

#[test]
fn releases_without_sdk_are_skipped() {
    let mut list = release_list(&["8.0.110"]);
    list.releases.push(ReleaseEntry { release_version: "8.0.5".to_string(), sdk: None });
    assert_eq!(collect_sdk_versions(&vec![list]), strings(&["8.0.110"]));
}

#[test]
fn catalog_fails_on_invalid_version() {
    let lists = vec![release_list(&["8.0.110", "not-a-version"])];
    let channels = vec![channel("8.0", Some("8.0.110"), Some("lts"), None)];
    match build_catalog(&channels, &lists) {
        Err(CatalogError::InvalidVersion(v)) => assert_eq!(v, "not-a-version"),
        Ok(_) => panic!("an invalid version was accepted"),
    }
}

#[test]
fn aliases_from_newest_channels() {
    let channels = vec![
        channel("9.0", Some("9.0.100"), Some("sts"), Some("active")),
        channel("8.0", Some("8.0.110"), Some("lts"), Some("active")),
    ];
    let a = derive_aliases(&channels);
    assert_eq!(a.latest.as_deref(), Some("9.0.100"));
    assert_eq!(a.current.as_deref(), Some("9.0.100"));
    assert_eq!(a.sts.as_deref(), Some("9.0.100"));
    assert_eq!(a.lts.as_deref(), Some("8.0.110"));
    assert_eq!(a.stable.as_deref(), Some("8.0.110"));
}

#[test]
fn aliases_first_writer_wins() {
    let channels = vec![
        channel("10.0", Some("10.0.100"), Some("lts"), None),
        channel("9.0", Some("9.0.100"), Some("sts"), None),
        channel("8.0", Some("8.0.110"), Some("lts"), None),
        channel("7.0", Some("7.0.410"), Some("sts"), None),
    ];
    let a = derive_aliases(&channels);
    assert_eq!(a.lts.as_deref(), Some("10.0.100"));
    assert_eq!(a.stable.as_deref(), Some("10.0.100"));
    assert_eq!(a.sts.as_deref(), Some("9.0.100"));
}

#[test]
fn aliases_of_empty_walk() {
    let a = derive_aliases(&vec![]);
    assert!(a.latest.is_none() && a.current.is_none() && a.lts.is_none() && a.sts.is_none() && a.stable.is_none());
}

#[test]
fn retained_channels_sorted_and_populated() {
    let channels = vec![
        channel("8.0", Some("8.0.110"), Some("lts"), Some("active")),
        channel("10.0", Some("10.0.100"), Some("lts"), Some("preview")),
        channel("11.0", None, None, Some("preview")),
        channel("9.0", Some("9.0.100"), Some("sts"), Some("active")),
        channel("2.1", Some("2.1.818"), Some("lts"), Some("eol")),
    ];
    let kept = retain_channels(channels, false);
    assert_eq!(names(&kept), strings(&["10.0", "9.0", "8.0"]));
}

#[test]
fn eol_channels_kept_when_asked() {
    let channels = vec![
        channel("2.1", Some("2.1.818"), Some("lts"), Some("eol")),
        channel("8.0", Some("8.0.110"), Some("lts"), Some("active")),
        channel("3.1", Some(""), Some("lts"), Some("eol")),
    ];
    let kept = retain_channels(channels, true);
    assert_eq!(names(&kept), strings(&["8.0", "2.1"]));
}

#[test]
fn equal_keys_keep_feed_order() {
    let mut first = channel("8.0", Some("8.0.110"), None, None);
    first.releases_json = "first".to_string();
    let mut second = channel("08.00", Some("8.0.100"), None, None);
    second.releases_json = "second".to_string();
    let kept = retain_channels(vec![first, second, channel("9.0", Some("9.0.100"), None, None)], false);
    let order: Vec<String> = kept.iter().map(|c| c.releases_json.clone()).collect();
    assert_eq!(order[1..], strings(&["first", "second"])[..]);
}

#[test]
fn catalog_is_repeatable() {
    let channels = vec![
        channel("9.0", Some("9.0.100"), Some("sts"), None),
        channel("8.0", Some("8.0.110"), Some("lts"), None),
    ];
    let lists = vec![release_list(&["9.0.100", "9.0.100-rc.1.24452.12"]), release_list(&["8.0.110", "8.0.100"])];
    let (a, b) = match (build_catalog(&channels, &lists), build_catalog(&channels, &lists)) {
        (Ok(a), Ok(b)) => (a, b),
        _ => panic!("catalog failed"),
    };
    assert_eq!(a.versions, b.versions);
    assert_eq!(a.versions, strings(&["9.0.100", "9.0.100-rc.1.24452.12", "8.0.110", "8.0.100"]));
    assert_eq!(a.aliases.lts, b.aliases.lts);
    assert_eq!(a.latest, b.latest);
    assert_eq!(a.latest.as_deref(), Some("9.0.100"));
}

#[test]
fn channel_keys() {
    assert_eq!(parse_channel_key("10.0"), (10, 0));
    assert_eq!(parse_channel_key("8"), (8, 0));
    assert_eq!(parse_channel_key("abc"), (0, 0));
    assert_eq!(parse_channel_key("6.x.1"), (6, 0));
    assert_eq!(parse_channel_key("+7.3.9"), (7, 3));
    assert_eq!(parse_channel_key(""), (0, 0));
}

#[test]
fn numbers_parse_like_std() {
    assert_eq!(parse_u64("18446744073709551615"), Some(u64::MAX));
    assert_eq!(parse_u64("18446744073709551616"), None);
    assert_eq!(parse_u64("+"), None);
    assert_eq!(parse_u64("-1"), None);
    assert_eq!(parse_u64("007"), Some(7));
    assert_eq!(parse_u64(""), None);
}

#[test]
fn channel_names_from_versions() {
    assert_eq!(channel_of_version(8, 0), "8.0");
    assert_eq!(channel_of_version(10, 12), "10.12");
    assert_eq!(decimal_string(0), "0");
    assert_eq!(decimal_string(1234567890), "1234567890");
}

#[test]
fn alias_synonyms() {
    assert_eq!(resolve_alias("stable"), Some("lts"));
    assert_eq!(resolve_alias("current"), Some("latest"));
    assert_eq!(resolve_alias("lts"), None);
}

#[test]
fn default_config() {
    let c = DotnetToolConfig::default();
    assert_eq!(
        c.metadata_index_url,
        "https://builds.dotnet.microsoft.com/dotnet/release-metadata/releases-index.json"
    );
    assert!(!c.include_eol_channels);
}
