use vstd::prelude::*;

verus! {

/// The top-level release index: one entry per release channel.
pub struct ReleasesIndex {
    pub releases_index: Vec<ReleaseChannel>,
}

/// One release channel (`major.minor`) of the index.
pub struct ReleaseChannel {
    pub channel_version: String,
    /// Absent while the channel has no SDK yet.
    pub latest_sdk: Option<String>,
    /// `lts` or `sts` for the channels that have one.
    pub release_type: Option<String>,
    /// `eol` for a channel that reached end of life.
    pub support_phase: Option<String>,
    /// Where the channel's release list lives.
    pub releases_json: String,
}

/// The release list of one channel.
pub struct ChannelReleases {
    pub releases: Vec<ReleaseEntry>,
}

/// One point release of a channel.
pub struct ReleaseEntry {
    pub release_version: String,
    pub sdk: Option<SdkEntry>,
}

/// The SDK that a point release bundles.
pub struct SdkEntry {
    pub version: String,
    pub files: Vec<SdkFile>,
}

/// One downloadable file of an SDK.
pub struct SdkFile {
    pub rid: String,
    pub name: String,
    pub url: String,
}

} // verus!
