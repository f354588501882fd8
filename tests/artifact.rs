use dotnet_tool::artifact::{
    archive_extension, check_supported_platform, checksum_url, download_name_from_url, find_channel, map_rid,
    pick_file_for_rid, select_artifact, HostArch, HostLibc, HostOs, SelectError,
};
use dotnet_tool::metadata::{ChannelReleases, ReleaseChannel, ReleaseEntry, SdkEntry, SdkFile};

fn file(rid: &str, name: &str) -> SdkFile {
    SdkFile {
        rid: rid.to_string(),
        name: name.to_string(),
        url: format!("https://builds.example.test/dotnet/Sdk/{}", name),
    }
}

fn releases() -> ChannelReleases {
    ChannelReleases {
        releases: vec![
            ReleaseEntry { release_version: "8.0.11".to_string(), sdk: None },
            ReleaseEntry {
                release_version: "8.0.10".to_string(),
                sdk: Some(SdkEntry {
                    version: "8.0.110".to_string(),
                    files: vec![
                        file("linux-x64", "dotnet-sdk-8.0.110-linux-x64.deb"),
                        file("linux-x64", "dotnet-sdk-8.0.110-linux-x64.tar.gz"),
                        file("linux-musl-x64", "dotnet-sdk-8.0.110-linux-musl-x64.tar.gz"),
                        file("win-x64", "dotnet-sdk-8.0.110-win-x64.exe"),
                        file("win-x64", "dotnet-sdk-8.0.110-win-x64.zip"),
                    ],
                }),
            },
        ],
    }
}

#[test]
fn selects_linux_archive() {
    match select_artifact(&releases(), "8.0.110", "8.0", HostOs::Linux, HostArch::X64, HostLibc::Gnu) {
        Ok(a) => {
            assert_eq!(a.download_url, "https://builds.example.test/dotnet/Sdk/dotnet-sdk-8.0.110-linux-x64.tar.gz");
            assert_eq!(a.download_name, "dotnet-sdk-8.0.110-linux-x64.tar.gz");
            assert_eq!(a.checksum_url, "https://builds.dotnet.microsoft.com/dotnet/checksums/8.0.10-sha.txt");
        },
        Err(_) => panic!("no artifact selected"),
    }
}

#[test]
fn selects_windows_zip_and_musl_tarball() {
    match select_artifact(&releases(), "8.0.110", "8.0", HostOs::Windows, HostArch::X64, HostLibc::Unknown) {
        Ok(a) => assert_eq!(a.download_name, "dotnet-sdk-8.0.110-win-x64.zip"),
        Err(_) => panic!("no artifact selected"),
    }
    match select_artifact(&releases(), "8.0.110", "8.0", HostOs::Linux, HostArch::X64, HostLibc::Musl) {
        Ok(a) => assert_eq!(a.download_name, "dotnet-sdk-8.0.110-linux-musl-x64.tar.gz"),
        Err(_) => panic!("no artifact selected"),
    }
}

#[test]
fn unsupported_platform_rejected() {
    assert!(check_supported_platform(HostOs::MacOS, HostArch::Arm).is_err());
    assert!(check_supported_platform(HostOs::Other, HostArch::X64).is_err());
    assert!(check_supported_platform(HostOs::Linux, HostArch::Other).is_err());
    assert!(check_supported_platform(HostOs::Linux, HostArch::Arm).is_ok());
    match select_artifact(&releases(), "8.0.110", "8.0", HostOs::Windows, HostArch::Arm, HostLibc::Unknown) {
        Err(SelectError::UnsupportedPlatform { os, arch }) => {
            assert_eq!(os, HostOs::Windows);
            assert_eq!(arch, HostArch::Arm);
        },
        _ => panic!("unsupported platform accepted"),
    }
}

#[test]
fn missing_version_reported() {
    match select_artifact(&releases(), "8.0.111", "8.0", HostOs::Linux, HostArch::X64, HostLibc::Gnu) {
        Err(SelectError::VersionNotFound { version, channel }) => {
            assert_eq!(version, "8.0.111");
            assert_eq!(channel, "8.0");
        },
        _ => panic!("missing version not reported"),
    }
}

#[test]
fn missing_archive_reported() {
    match select_artifact(&releases(), "8.0.110", "8.0", HostOs::MacOS, HostArch::Arm64, HostLibc::Unknown) {
        Err(SelectError::NoMatchingArchive { rid, extension }) => {
            assert_eq!(rid, "osx-arm64");
            assert_eq!(extension, ".tar.gz");
        },
        _ => panic!("missing archive not reported"),
    }
}

#[test]
fn rid_table() {
    assert_eq!(map_rid(HostOs::Linux, HostArch::Arm, HostLibc::Musl), "linux-arm");
    assert_eq!(map_rid(HostOs::Linux, HostArch::Arm64, HostLibc::Musl), "linux-musl-arm64");
    assert_eq!(map_rid(HostOs::Linux, HostArch::Arm64, HostLibc::Gnu), "linux-arm64");
    assert_eq!(map_rid(HostOs::Linux, HostArch::X64, HostLibc::Unknown), "linux-x64");
    assert_eq!(map_rid(HostOs::MacOS, HostArch::Arm64, HostLibc::Musl), "osx-arm64");
    assert_eq!(map_rid(HostOs::MacOS, HostArch::X64, HostLibc::Gnu), "osx-x64");
    assert_eq!(map_rid(HostOs::Windows, HostArch::Arm64, HostLibc::Gnu), "win-arm64");
    assert_eq!(map_rid(HostOs::Windows, HostArch::X64, HostLibc::Gnu), "win-x64");
    assert_eq!(archive_extension(HostOs::Windows), ".zip");
    assert_eq!(archive_extension(HostOs::MacOS), ".tar.gz");
}

#[test]
fn first_matching_file_wins() {
    let files = vec![
        file("linux-x64", "a.zip"),
        file("linux-x64", "b.tar.gz"),
        file("linux-x64", "c.tar.gz"),
    ];
    assert_eq!(pick_file_for_rid(&files, "linux-x64", ".tar.gz"), Some(1));
    assert_eq!(pick_file_for_rid(&files, "linux-arm", ".tar.gz"), None);
    assert_eq!(pick_file_for_rid(&vec![], "linux-x64", ".tar.gz"), None);
}

#[test]
fn url_pieces() {
    assert_eq!(download_name_from_url("https://a.test/x/y/sdk.tar.gz"), "sdk.tar.gz");
    assert_eq!(download_name_from_url("sdk.zip"), "sdk.zip");
    assert_eq!(download_name_from_url("https://a.test/x/"), "");
    assert_eq!(checksum_url("9.0.0"), "https://builds.dotnet.microsoft.com/dotnet/checksums/9.0.0-sha.txt");
}

#[test]
fn channel_found_by_exact_name() {
    let index = vec![
        ReleaseChannel {
            channel_version: "9.0".to_string(),
            latest_sdk: Some("9.0.100".to_string()),
            release_type: None,
            support_phase: None,
            releases_json: "nine".to_string(),
        },
        ReleaseChannel {
            channel_version: "8.0".to_string(),
            latest_sdk: Some("8.0.110".to_string()),
            release_type: None,
            support_phase: None,
            releases_json: "eight".to_string(),
        },
    ];
    assert!(matches!(find_channel(&index, "8.0"), Ok(1)));
    match find_channel(&index, "8.00") {
        Err(SelectError::ChannelNotFound { channel }) => assert_eq!(channel, "8.00"),
        _ => panic!("channel matched loosely"),
    }
}
