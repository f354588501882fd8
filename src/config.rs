use vstd::prelude::*;

verus! {

/// Settings of the tool: where the release index lives, and whether channels
/// that reached end of life are listed.
pub struct DotnetToolConfig {
    pub metadata_index_url: String,
    pub include_eol_channels: bool,
}

/// The index that Microsoft publishes for all .NET release channels.
pub const DEFAULT_INDEX_URL: &'static str =
    "https://builds.dotnet.microsoft.com/dotnet/release-metadata/releases-index.json";

impl Default for DotnetToolConfig {
    fn default() -> (r: Self)
        ensures
            r.metadata_index_url@ == DEFAULT_INDEX_URL@,
            !r.include_eol_channels,
    {
        DotnetToolConfig {
            metadata_index_url: String::from_str(DEFAULT_INDEX_URL),
            include_eol_channels: false,
        }
    }
}

} // verus!
