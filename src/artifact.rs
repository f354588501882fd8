use vstd::prelude::*;
use crate::metadata::{ChannelReleases, ReleaseChannel, ReleaseEntry, SdkFile};
use crate::text::{ends_with, has_suffix, last_path_segment, last_segment, str_eq};

verus! {

/// Operating system of the host.
#[derive(PartialEq, Eq, Structural, Clone, Copy, Debug)]
pub enum HostOs {
    Linux,
    MacOS,
    Windows,
    Other,
}

/// CPU architecture of the host.
#[derive(PartialEq, Eq, Structural, Clone, Copy, Debug)]
pub enum HostArch {
    X64,
    Arm64,
    Arm,
    Other,
}

/// C library of the host; it matters on Linux alone.
#[derive(PartialEq, Eq, Structural, Clone, Copy, Debug)]
pub enum HostLibc {
    Gnu,
    Musl,
    Unknown,
}

/// Why no download could be chosen.
pub enum SelectError {
    UnsupportedPlatform { os: HostOs, arch: HostArch },
    ChannelNotFound { channel: String },
    VersionNotFound { version: String, channel: String },
    NoMatchingArchive { rid: String, extension: String },
}

/// Where to get an SDK archive.
pub struct Artifact {
    pub download_url: String,
    pub download_name: String,
    pub checksum_url: String,
}

/// Where Microsoft publishes the checksum files of each release.
pub const CHECKSUM_BASE: &'static str = "https://builds.dotnet.microsoft.com/dotnet/checksums/";

/// Ending of a checksum file's name, after the release version.
pub const CHECKSUM_SUFFIX: &'static str = "-sha.txt";

/// The (OS, architecture) pairs for which SDK archives are published.
pub open spec fn is_supported(os: HostOs, arch: HostArch) -> bool {
    match os {
        HostOs::Linux => arch == HostArch::X64 || arch == HostArch::Arm64 || arch == HostArch::Arm,
        HostOs::MacOS => arch == HostArch::X64 || arch == HostArch::Arm64,
        HostOs::Windows => arch == HostArch::X64 || arch == HostArch::Arm64,
        HostOs::Other => false,
    }
}

/// The platform identifier (RID) of a supported host.
pub open spec fn rid_of(os: HostOs, arch: HostArch, libc: HostLibc) -> Seq<char>
    recommends
        is_supported(os, arch),
{
    match (os, arch) {
        (HostOs::Linux, HostArch::Arm) => "linux-arm"@,
        (HostOs::Linux, HostArch::Arm64) => if libc == HostLibc::Musl {
            "linux-musl-arm64"@
        } else {
            "linux-arm64"@
        },
        (HostOs::Linux, _) => if libc == HostLibc::Musl {
            "linux-musl-x64"@
        } else {
            "linux-x64"@
        },
        (HostOs::MacOS, HostArch::Arm64) => "osx-arm64"@,
        (HostOs::MacOS, _) => "osx-x64"@,
        (HostOs::Windows, HostArch::Arm64) => "win-arm64"@,
        (_, _) => "win-x64"@,
    }
}

/// The archive kind that a host unpacks: zip on Windows, a gzipped tarball
/// elsewhere.
pub open spec fn extension_of(os: HostOs) -> Seq<char> {
    if os == HostOs::Windows {
        ".zip"@
    } else {
        ".tar.gz"@
    }
}

/// Fails on an (OS, architecture) pair for which nothing is published.
pub fn check_supported_platform(os: HostOs, arch: HostArch) -> (r: Result<(), SelectError>)
    ensures
        r is Ok <==> is_supported(os, arch),
        r matches Err(e) ==> e == (SelectError::UnsupportedPlatform { os, arch }),
{
    let ok = match os {
        HostOs::Linux => matches!(arch, HostArch::X64 | HostArch::Arm64 | HostArch::Arm),
        HostOs::MacOS => matches!(arch, HostArch::X64 | HostArch::Arm64),
        HostOs::Windows => matches!(arch, HostArch::X64 | HostArch::Arm64),
        HostOs::Other => false,
    };
    if ok {
        Ok(())
    } else {
        Err(SelectError::UnsupportedPlatform { os, arch })
    }
}

/// The platform identifier of a supported host; the table covers every
/// supported pair.
pub fn map_rid(os: HostOs, arch: HostArch, libc: HostLibc) -> (r: &'static str)
    requires
        is_supported(os, arch),
    ensures
        r@ == rid_of(os, arch, libc),
{
    let musl = matches!(libc, HostLibc::Musl);
    match os {
        HostOs::Linux => match arch {
            HostArch::Arm => "linux-arm",
            HostArch::Arm64 => if musl {
                "linux-musl-arm64"
            } else {
                "linux-arm64"
            },
            _ => if musl {
                "linux-musl-x64"
            } else {
                "linux-x64"
            },
        },
        HostOs::MacOS => match arch {
            HostArch::Arm64 => "osx-arm64",
            _ => "osx-x64",
        },
        _ => match arch {
            HostArch::Arm64 => "win-arm64",
            _ => "win-x64",
        },
    }
}

/// The archive extension that a host expects.
pub fn archive_extension(os: HostOs) -> (r: &'static str)
    ensures
        r@ == extension_of(os),
{
    match os {
        HostOs::Windows => ".zip",
        _ => ".tar.gz",
    }
}

/// A file published for platform `rid` whose name ends with `extension`.
pub open spec fn file_matches(f: SdkFile, rid: Seq<char>, extension: Seq<char>) -> bool {
    f.rid@ == rid && has_suffix(f.name@, extension)
}

/// The first file of `files` for platform `rid` whose name ends with
/// `extension`.
pub fn pick_file_for_rid(files: &Vec<SdkFile>, rid: &str, extension: &str) -> (r: Option<usize>)
    ensures
        r matches Some(i) ==> i < files.len() && file_matches(files@[i as int], rid@, extension@)
            && forall|j: int| 0 <= j < i ==> !file_matches(#[trigger] files@[j], rid@, extension@),
        r is None ==> forall|j: int| 0 <= j < files.len() ==> !file_matches(#[trigger] files@[j], rid@, extension@),
{
    let mut i: usize = 0;
    while i < files.len()
        invariant
            i <= files.len(),
            forall|j: int| 0 <= j < i ==> !file_matches(#[trigger] files@[j], rid@, extension@),
        decreases files.len() - i,
    {
        let f = &files[i];
        if str_eq(f.rid.as_str(), rid) && ends_with(f.name.as_str(), extension) {
            return Some(i);
        }
        i = i + 1;
    }
    None
}

/// The name under which a download is saved: the last segment of its URL.
pub fn download_name_from_url(url: &str) -> (r: String)
    ensures
        r@ == last_segment(url@),
{
    last_path_segment(url)
}

/// Where the checksums of a point release are published.
pub open spec fn checksum_url_of(release_version: Seq<char>) -> Seq<char> {
    CHECKSUM_BASE@ + release_version + CHECKSUM_SUFFIX@
}

/// The URL of the checksum file of a point release.
pub fn checksum_url(release_version: &str) -> (r: String)
    ensures
        r@ == checksum_url_of(release_version@),
{
    let mut s = String::from_str(CHECKSUM_BASE);
    s.append(release_version);
    s.append(CHECKSUM_SUFFIX);
    s
}

/// The SDK version that a release bundles matches `version` letter for letter.
pub open spec fn release_has_version(e: ReleaseEntry, version: Seq<char>) -> bool {
    match e.sdk {
        Some(sdk) => sdk.version@ == version,
        None => false,
    }
}

/// The first release of `releases` that bundles SDK `version`.
pub fn find_release(releases: &ChannelReleases, version: &str) -> (r: Option<usize>)
    ensures
        r matches Some(i) ==> i < releases.releases.len()
            && release_has_version(releases.releases@[i as int], version@)
            && forall|j: int| 0 <= j < i ==> !release_has_version(#[trigger] releases.releases@[j], version@),
        r is None ==> forall|j: int| 0 <= j < releases.releases.len() ==> !release_has_version(#[trigger] releases.releases@[j], version@),
{
    let list = &releases.releases;
    let mut i: usize = 0;
    while i < list.len()
        invariant
            i <= list.len(),
            list@ == releases.releases@,
            forall|j: int| 0 <= j < i ==> !release_has_version(#[trigger] list@[j], version@),
        decreases list.len() - i,
    {
        if let Some(sdk) = &list[i].sdk {
            if str_eq(sdk.version.as_str(), version) {
                return Some(i);
            }
        }
        i = i + 1;
    }
    None
}

/// The first channel of the index named `channel` letter for letter.
pub fn find_channel(channels: &Vec<ReleaseChannel>, channel: &str) -> (r: Result<usize, SelectError>)
    ensures
        r matches Ok(i) ==> i < channels.len() && channels@[i as int].channel_version@ == channel@
            && forall|j: int| 0 <= j < i ==> (#[trigger] channels@[j]).channel_version@ != channel@,
        r is Err ==> forall|j: int| 0 <= j < channels.len() ==> (#[trigger] channels@[j]).channel_version@ != channel@,
        r matches Err(e) ==> e matches SelectError::ChannelNotFound { channel: c } && c@ == channel@,
{
    let mut i: usize = 0;
    while i < channels.len()
        invariant
            i <= channels.len(),
            forall|j: int| 0 <= j < i ==> (#[trigger] channels@[j]).channel_version@ != channel@,
        decreases channels.len() - i,
    {
        if str_eq(channels[i].channel_version.as_str(), channel) {
            return Ok(i);
        }
        i = i + 1;
    }
    Err(SelectError::ChannelNotFound { channel: String::from_str(channel) })
}

/// The files of the SDK that a release bundles.
pub open spec fn files_of(e: ReleaseEntry) -> Seq<SdkFile> {
    match e.sdk {
        Some(sdk) => sdk.files@,
        None => Seq::empty(),
    }
}

/// Release `i` is the first of `rs` to bundle SDK `version`.
pub open spec fn is_first_release(rs: Seq<ReleaseEntry>, i: int, version: Seq<char>) -> bool {
    &&& 0 <= i < rs.len()
    &&& release_has_version(rs[i], version)
    &&& forall|j: int| 0 <= j < i ==> !release_has_version(#[trigger] rs[j], version)
}

/// File `k` is the first of `fs` for platform `rid` with `extension`.
pub open spec fn is_first_file(fs: Seq<SdkFile>, k: int, rid: Seq<char>, extension: Seq<char>) -> bool {
    &&& 0 <= k < fs.len()
    &&& file_matches(fs[k], rid, extension)
    &&& forall|j: int| 0 <= j < k ==> !file_matches(#[trigger] fs[j], rid, extension)
}

/// Chooses the archive of SDK `version` for a host from the release list
/// of its channel: the first release that bundles that version letter for
/// letter, and in it the first file for the host's platform identifier with
/// the host's archive extension.
pub fn select_artifact(
    releases: &ChannelReleases,
    version: &str,
    channel: &str,
    os: HostOs,
    arch: HostArch,
    libc: HostLibc,
) -> (r: Result<Artifact, SelectError>)
    ensures
        r matches Err(SelectError::UnsupportedPlatform { os: o, arch: a }) <==> !is_supported(os, arch),
        r matches Err(SelectError::UnsupportedPlatform { os: o, arch: a }) ==> o == os && a == arch,
        !(r matches Err(SelectError::ChannelNotFound { .. })),
        r matches Err(SelectError::VersionNotFound { version: v, channel: c }) <==> is_supported(os, arch)
            && forall|j: int| 0 <= j < releases.releases.len() ==> !release_has_version(#[trigger] releases.releases@[j], version@),
        r matches Err(SelectError::VersionNotFound { version: v, channel: c }) ==> v@ == version@ && c@ == channel@,
        r matches Err(SelectError::NoMatchingArchive { rid: d, extension: x }) <==> is_supported(os, arch)
            && exists|i: int| is_first_release(releases.releases@, i, version@)
                && forall|k: int| 0 <= k < files_of(releases.releases@[i]).len()
                    ==> !file_matches(#[trigger] files_of(releases.releases@[i])[k], rid_of(os, arch, libc), extension_of(os)),
        r matches Err(SelectError::NoMatchingArchive { rid: d, extension: x }) ==> d@ == rid_of(os, arch, libc) && x@ == extension_of(os),
        r matches Ok(a) ==> is_supported(os, arch) && exists|i: int, k: int|
            is_first_release(releases.releases@, i, version@)
            && is_first_file(files_of(releases.releases@[i]), k, rid_of(os, arch, libc), extension_of(os))
            && a.download_url@ == files_of(releases.releases@[i])[k].url@
            && a.download_name@ == last_segment(files_of(releases.releases@[i])[k].url@)
            && a.checksum_url@ == checksum_url_of(releases.releases@[i].release_version@),
{
    match check_supported_platform(os, arch) {
        Err(e) => return Err(e),
        Ok(()) => {},
    }
    let rid = map_rid(os, arch, libc);
    let extension = archive_extension(os);
    match find_release(releases, version) {
        None => Err(SelectError::VersionNotFound {
            version: String::from_str(version),
            channel: String::from_str(channel),
        }),
        Some(i) => {
            let release = &releases.releases[i];
            let files = match &release.sdk {
                Some(sdk) => &sdk.files,
                None => {
                    assert(false);
                    return Err(SelectError::VersionNotFound {
                        version: String::from_str(version),
                        channel: String::from_str(channel),
                    });
                },
            };
            assert(files@ == files_of(releases.releases@[i as int]));
            match pick_file_for_rid(files, rid, extension) {
                None => {
                    assert(is_first_release(releases.releases@, i as int, version@));
                    Err(SelectError::NoMatchingArchive {
                        rid: String::from_str(rid),
                        extension: String::from_str(extension),
                    })
                },
                Some(k) => {
                    let url = &files[k].url;
                    let download_name = download_name_from_url(url.as_str());
                    let checksum = checksum_url(release.release_version.as_str());
                    let a = Artifact {
                        download_url: url.clone(),
                        download_name,
                        checksum_url: checksum,
                    };
                    assert(is_first_release(releases.releases@, i as int, version@));
                    assert(is_first_file(files@, k as int, rid@, extension@));
                    Ok(a)
                },
            }
        },
    }
}

} // verus!
