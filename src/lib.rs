//! Version catalog and artifact selection for the .NET SDK, over the
//! release-metadata feed that Microsoft publishes.
//!
//! - `channels`: which release channels the catalog walks, and in what order.
//! - `catalog`: the deduplicated, descending version list and the aliases.
//! - `artifact`: the platform identifier of a host and the archive to fetch.
//! - `precedence`: semantic-version parsing and ordering, from `semver`.
//! - `numbers`, `text`: the number and string handling that these rest on.

pub mod config;
pub mod metadata;
pub mod numbers;
pub mod text;
pub mod precedence;
pub mod channels;
pub mod catalog;
pub mod artifact;
