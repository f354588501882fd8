use vstd::prelude::*;
use std::cmp::Ordering;
use crate::channels::{has_sdk, tag};
use crate::metadata::{ChannelReleases, ReleaseChannel, ReleaseEntry};
use crate::precedence::{compare_semver, is_semver, parses_as_semver, semver_order};
use crate::text::str_eq;
use vstd::seq_lib::to_multiset_insert;

verus! {

/// The alias table of a catalog.
pub struct Aliases {
    pub latest: Option<String>,
    pub current: Option<String>,
    pub lts: Option<String>,
    pub sts: Option<String>,
    pub stable: Option<String>,
}

/// What the catalog lists: every SDK version, newest first, and the aliases.
pub struct Catalog {
    pub versions: Vec<String>,
    pub aliases: Aliases,
    pub latest: Option<String>,
}

/// Why a catalog could not be built.
pub enum CatalogError {
    /// A version string of the feed is no semantic version.
    InvalidVersion(String),
}

pub open spec fn opt_view(o: Option<String>) -> Option<Seq<char>> {
    match o {
        Some(s) => Some(s@),
        None => None,
    }
}

pub open spec fn views(s: Seq<String>) -> Seq<Seq<char>> {
    s.map_values(|x: String| x@)
}

/// A channel that can set the alias for `kind`: any channel with an SDK
/// where `kind` is absent, else one whose release type is `kind`.
pub open spec fn fits(c: ReleaseChannel, kind: Option<Seq<char>>) -> bool {
    has_sdk(c) && match kind {
        Some(k) => tag(c.release_type) == k,
        None => true,
    }
}

/// The latest SDK of the first channel of `s` that fits `kind`.
pub open spec fn first_sdk(s: Seq<ReleaseChannel>, kind: Option<Seq<char>>) -> Option<Seq<char>>
    decreases s.len(),
{
    if s.len() == 0 {
        None
    } else if fits(s[0], kind) {
        Some(tag(s[0].latest_sdk))
    } else {
        first_sdk(s.drop_first(), kind)
    }
}

/// The aliases that a walk over `s`, newest channel first, gives: `latest`
/// and `current` from the first channel with an SDK, `lts` and `sts` from
/// the first channel of that type, and `stable` the same as `lts`.
pub open spec fn aliases_match(a: Aliases, s: Seq<ReleaseChannel>) -> bool {
    &&& opt_view(a.latest) == first_sdk(s, None)
    &&& opt_view(a.current) == first_sdk(s, None)
    &&& opt_view(a.lts) == first_sdk(s, Some("lts"@))
    &&& opt_view(a.sts) == first_sdk(s, Some("sts"@))
    &&& opt_view(a.stable) == first_sdk(s, Some("lts"@))
}

fn first_sdk_exec(channels: &Vec<ReleaseChannel>, kind: Option<&str>) -> (r: Option<String>)
    ensures
        opt_view(r) == first_sdk(channels@, match kind {
            Some(k) => Some(k@),
            None => None,
        }),
{
    let ghost gk = match kind {
        Some(k) => Some(k@),
        None => None::<Seq<char>>,
    };
    let mut i: usize = 0;
    assert(channels@.subrange(0, channels@.len() as int) =~= channels@);
    while i < channels.len()
        invariant
            i <= channels.len(),
            gk == match kind {
                Some(k) => Some(k@),
                None => None::<Seq<char>>,
            },
            first_sdk(channels@, gk) == first_sdk(channels@.subrange(i as int, channels@.len() as int), gk),
        decreases channels.len() - i,
    {
        let c = &channels[i];
        let ghost rest = channels@.subrange(i as int, channels@.len() as int);
        assert(rest[0] == *c);
        assert(rest.drop_first() =~= channels@.subrange(i + 1, channels@.len() as int));
        if let Some(sdk) = &c.latest_sdk {
            if sdk.as_str().unicode_len() > 0 {
                let type_fits = match kind {
                    Some(k) => match &c.release_type {
                        Some(t) => str_eq(t.as_str(), k),
                        None => {
                            proof {
                                if k@.len() == 0 {
                                    assert(k@ =~= Seq::<char>::empty());
                                }
                            }
                            k.unicode_len() == 0
                        },
                    },
                    None => true,
                };
                assert(type_fits == fits(*c, gk));
                if type_fits {
                    return Some(sdk.clone());
                }
            }
        }
        i = i + 1;
    }
    None
}

/// The alias table of a walk over `channels`, newest first.
pub fn derive_aliases(channels: &Vec<ReleaseChannel>) -> (r: Aliases)
    ensures
        aliases_match(r, channels@),
{
    let latest = first_sdk_exec(channels, None);
    let current = first_sdk_exec(channels, None);
    let lts = first_sdk_exec(channels, Some("lts"));
    let sts = first_sdk_exec(channels, Some("sts"));
    let stable = first_sdk_exec(channels, Some("lts"));
    Aliases { latest, current, lts, sts, stable }
}

/// The SDK version that a release bundles, if any.
pub open spec fn sdk_version(e: ReleaseEntry) -> Option<Seq<char>> {
    match e.sdk {
        Some(sdk) => Some(sdk.version@),
        None => None,
    }
}

/// Release `j` of list `i` bundles SDK version `v`.
pub open spec fn bundles(lists: Seq<ChannelReleases>, i: int, j: int, v: Seq<char>) -> bool {
    0 <= i < lists.len() && 0 <= j < lists[i].releases@.len() && sdk_version(lists[i].releases@[j]) == Some(v)
}

/// Some release of some list bundles SDK version `v`.
pub open spec fn appears(lists: Seq<ChannelReleases>, v: Seq<char>) -> bool {
    exists|i: int, j: int| bundles(lists, i, j, v)
}

fn contains_str(v: &Vec<String>, s: &str) -> (r: bool)
    ensures
        r == views(v@).contains(s@),
{
    let mut i: usize = 0;
    while i < v.len()
        invariant
            i <= v.len(),
            forall|j: int| 0 <= j < i ==> v@[j]@ != s@,
        decreases v.len() - i,
    {
        if str_eq(v[i].as_str(), s) {
            assert(views(v@)[i as int] == s@);
            return true;
        }
        i = i + 1;
    }
    assert forall|j: int| 0 <= j < views(v@).len() implies views(v@)[j] != s@ by {
        assert(views(v@)[j] == v@[j]@);
    }
    false
}

/// Every SDK version that the release lists bundle, each once.
pub fn collect_sdk_versions(lists: &Vec<ChannelReleases>) -> (r: Vec<String>)
    ensures
        views(r@).no_duplicates(),
        forall|v: Seq<char>| views(r@).contains(v) <==> appears(lists@, v),
{
    let mut out: Vec<String> = Vec::new();
    let mut i: usize = 0;
    while i < lists.len()
        invariant
            i <= lists.len(),
            views(out@).no_duplicates(),
            forall|v: Seq<char>|
                views(out@).contains(v) <==> exists|a: int, b: int| a < i && #[trigger] bundles(lists@, a, b, v),
        decreases lists.len() - i,
    {
        let releases = &lists[i].releases;
        let mut j: usize = 0;
        while j < releases.len()
            invariant
                i < lists.len(),
                j <= releases.len(),
                releases@ == lists@[i as int].releases@,
                views(out@).no_duplicates(),
                forall|v: Seq<char>|
                    views(out@).contains(v) <==> exists|a: int, b: int|
                        (a < i || (a == i && b < j)) && #[trigger] bundles(lists@, a, b, v),
            decreases releases.len() - j,
        {
            if let Some(sdk) = &releases[j].sdk {
                let ghost before = out@;
                let found = contains_str(&out, sdk.version.as_str());
                if !found {
                    out.push(sdk.version.clone());
                    proof {
                        assert(views(out@) =~= views(before).push(sdk.version@));
                        assert(bundles(lists@, i as int, j as int, sdk.version@));
                        assert forall|v: Seq<char>|
                            views(out@).contains(v) <==> exists|a: int, b: int|
                                (a < i || (a == i && b < j + 1)) && #[trigger] bundles(lists@, a, b, v) by {
                            if views(out@).contains(v) && v != sdk.version@ {
                                let k = choose|k: int| 0 <= k < views(out@).len() && views(out@)[k] == v;
                                assert(views(before)[k] == v);
                                assert(views(before).contains(v));
                                let (a, b) = choose|a: int, b: int| (a < i || (a == i && b < j)) && #[trigger] bundles(lists@, a, b, v);
                                assert((a < i || (a == i && b < j + 1)) && bundles(lists@, a, b, v));
                            }
                            if exists|a: int, b: int| (a < i || (a == i && b < j + 1)) && #[trigger] bundles(lists@, a, b, v) {
                                if v != sdk.version@ {
                                    let (a, b) = choose|a: int, b: int| (a < i || (a == i && b < j + 1)) && #[trigger] bundles(lists@, a, b, v);
                                    assert(views(before).contains(v));
                                    let k = choose|k: int| 0 <= k < views(before).len() && views(before)[k] == v;
                                    assert(views(out@)[k] == v);
                                } else {
                                    assert(views(out@)[before.len() as int] == v);
                                }
                            }
                        }
                    }
                } else {
                    proof {
                        assert(views(out@).contains(sdk.version@));
                        assert forall|v: Seq<char>|
                            views(out@).contains(v) <==> exists|a: int, b: int|
                                (a < i || (a == i && b < j + 1)) && #[trigger] bundles(lists@, a, b, v) by {
                            if exists|a: int, b: int| (a < i || (a == i && b < j + 1)) && #[trigger] bundles(lists@, a, b, v) {
                                if v != sdk.version@ {
                                    let (a, b) = choose|a: int, b: int| (a < i || (a == i && b < j + 1)) && #[trigger] bundles(lists@, a, b, v);
                                    assert(b != j || a != i);
                                }
                            }
                        }
                    }
                }
            } else {
                proof {
                    assert forall|v: Seq<char>|
                        views(out@).contains(v) <==> exists|a: int, b: int|
                            (a < i || (a == i && b < j + 1)) && #[trigger] bundles(lists@, a, b, v) by {
                        if exists|a: int, b: int| (a < i || (a == i && b < j + 1)) && #[trigger] bundles(lists@, a, b, v) {
                            let (a, b) = choose|a: int, b: int| (a < i || (a == i && b < j + 1)) && #[trigger] bundles(lists@, a, b, v);
                            assert(b != j || a != i);
                        }
                    }
                }
            }
            j = j + 1;
        }
        proof {
            assert forall|v: Seq<char>|
                views(out@).contains(v) <==> exists|a: int, b: int| a < i + 1 && #[trigger] bundles(lists@, a, b, v) by {
                if exists|a: int, b: int| a < i + 1 && #[trigger] bundles(lists@, a, b, v) {
                    let (a, b) = choose|a: int, b: int| a < i + 1 && #[trigger] bundles(lists@, a, b, v);
                    assert(a < i || (a == i && b < j));
                }
            }
        }
        i = i + 1;
    }
    proof {
        assert forall|v: Seq<char>| views(out@).contains(v) <==> appears(lists@, v) by {
            if appears(lists@, v) {
                let (a, b) = choose|a: int, b: int| bundles(lists@, a, b, v);
                assert(a < i && bundles(lists@, a, b, v));
            }
        }
    }
    out
}

/// Each version orders at or above the one after it.
pub open spec fn descending(s: Seq<String>) -> bool {
    forall|i: int| 0 <= i < s.len() - 1 ==> #[trigger] semver_order(s[i]@, s[i + 1]@) != Ordering::Less
}

/// Every string of `s` is a semantic version.
pub open spec fn all_semver(s: Seq<String>) -> bool {
    forall|i: int| 0 <= i < s.len() ==> is_semver(#[trigger] s[i]@)
}

/// Orders the versions newest first by semantic-version precedence; fails
/// on the first string that is no semantic version.
pub fn sort_versions_desc(versions: Vec<String>) -> (r: Result<Vec<String>, CatalogError>)
    ensures
        r is Ok <==> all_semver(versions@),
        r matches Err(CatalogError::InvalidVersion(v)) ==> exists|i: int|
            0 <= i < versions.len() && versions@[i] == v && !is_semver(v@)
                && forall|j: int| 0 <= j < i ==> is_semver(#[trigger] versions@[j]@),
        r matches Ok(out) ==> views(out@).to_multiset() == views(versions@).to_multiset() && descending(out@),
{
    let mut i: usize = 0;
    while i < versions.len()
        invariant
            i <= versions.len(),
            forall|j: int| 0 <= j < i ==> is_semver(#[trigger] versions@[j]@),
        decreases versions.len() - i,
    {
        if !parses_as_semver(versions[i].as_str()) {
            return Err(CatalogError::InvalidVersion(versions[i].clone()));
        }
        i = i + 1;
    }
    let ghost orig = versions@;
    let mut rest = versions;
    let mut out: Vec<String> = Vec::new();
    assert(views(out@) =~= Seq::<Seq<char>>::empty());
    assert(views(orig.subrange(0, 0)) =~= Seq::<Seq<char>>::empty());
    assert(rest@ =~= orig.subrange(0, orig.len() as int));
    let ghost mut k: int = 0;
    while rest.len() > 0
        invariant
            0 <= k <= orig.len(),
            all_semver(orig),
            rest@ == orig.subrange(k, orig.len() as int),
            views(out@).to_multiset() == views(orig.subrange(0, k)).to_multiset(),
            all_semver(out@),
            descending(out@),
        decreases rest.len(),
    {
        let x = rest.remove(0);
        proof {
            assert(orig[k] == x);
            assert(views(orig.subrange(0, k + 1)) =~= views(orig.subrange(0, k)).push(x@));
            vstd::seq_lib::to_multiset_build(views(orig.subrange(0, k)), x@);
            assert(rest@ =~= orig.subrange(k + 1, orig.len() as int));
            k = k + 1;
        }
        let mut j: usize = 0;
        let mut placed = false;
        while !placed && j < out.len()
            invariant
                j <= out.len(),
                is_semver(x@),
                all_semver(out@),
                placed ==> j < out.len() && semver_order(x@, out@[j as int]@) == Ordering::Greater,
                forall|a: int| 0 <= a < j ==> semver_order(#[trigger] out@[a]@, x@) != Ordering::Less,
            decreases out.len() - j + (if placed { 0int } else { 1int }),
        {
            let o = compare_semver(x.as_str(), out[j].as_str());
            if matches!(o, Ordering::Greater) {
                placed = true;
            } else {
                j = j + 1;
            }
        }
        let ghost before = out@;
        out.insert(j, x);
        proof {
            assert(out@ == before.insert(j as int, x));
            assert(views(out@) =~= views(before).insert(j as int, x@));
            to_multiset_insert(views(before), j as int, x@);
            lemma_descending_after_insert(before, j as int, x);
        }
    }
    proof {
        assert(orig.subrange(0, k) =~= orig);
    }
    assert(views(out@).to_multiset() == views(orig).to_multiset());
    Ok(out)
}

/// Builds the catalog of the retained channels, walked newest first, from
/// their release lists: every SDK version once, newest first, and the
/// alias table. Fails where a bundled version is no semantic version.
pub fn build_catalog(channels: &Vec<ReleaseChannel>, lists: &Vec<ChannelReleases>) -> (r: Result<Catalog, CatalogError>)
    ensures
        r is Ok <==> forall|v: Seq<char>| appears(lists@, v) ==> is_semver(v),
        r matches Err(CatalogError::InvalidVersion(v)) ==> appears(lists@, v@) && !is_semver(v@),
        r matches Ok(c) ==> {
            &&& views(c.versions@).no_duplicates()
            &&& (forall|v: Seq<char>| views(c.versions@).contains(v) <==> appears(lists@, v))
            &&& descending(c.versions@)
            &&& aliases_match(c.aliases, channels@)
            &&& opt_view(c.latest) == first_sdk(channels@, None)
        },
{
    let found = collect_sdk_versions(lists);
    let ghost fs = found@;
    let sorted = sort_versions_desc(found);
    match sorted {
        Ok(versions) => {
            proof {
                lemma_same_multiset(views(fs), views(versions@));
                assert forall|v: Seq<char>| appears(lists@, v) implies is_semver(v) by {
                    assert(views(fs).contains(v));
                    let a = choose|a: int| 0 <= a < views(fs).len() && views(fs)[a] == v;
                    assert(is_semver(fs[a]@));
                }
            }
            let aliases = derive_aliases(channels);
            let latest = first_sdk_exec(channels, None);
            Ok(Catalog { versions, aliases, latest })
        },
        Err(CatalogError::InvalidVersion(v)) => {
            proof {
                let a = choose|a: int| 0 <= a < fs.len() && fs[a] == v && !is_semver(v@)
                    && forall|j: int| 0 <= j < a ==> is_semver(#[trigger] fs[j]@);
                assert(views(fs)[a] == v@);
                assert(views(fs).contains(v@));
            }
            Err(CatalogError::InvalidVersion(v))
        },
    }
}

proof fn lemma_descending_after_insert(s: Seq<String>, j: int, x: String)
    requires
        0 <= j <= s.len(),
        descending(s),
        all_semver(s),
        is_semver(x@),
        j < s.len() ==> semver_order(x@, s[j]@) == Ordering::Greater,
        forall|a: int| 0 <= a < j ==> semver_order(#[trigger] s[a]@, x@) != Ordering::Less,
    ensures
        descending(s.insert(j, x)),
        all_semver(s.insert(j, x)),
{
    let t = s.insert(j, x);
    assert forall|a: int| 0 <= a < t.len() - 1 implies #[trigger] semver_order(t[a]@, t[a + 1]@) != Ordering::Less by {
        if a + 1 < j {
            assert(t[a] == s[a] && t[a + 1] == s[a + 1]);
            assert(semver_order(s[a]@, s[a + 1]@) != Ordering::Less);
        } else if a + 1 == j {
            assert(t[a] == s[a]);
        } else if a == j {
            assert(t[a + 1] == s[a]);
        } else {
            let i = a - 1;
            assert(t[a] == s[i] && t[a + 1] == s[i + 1]);
            assert(semver_order(s[i]@, s[i + 1]@) != Ordering::Less);
        }
    }
    assert forall|a: int| 0 <= a < t.len() implies is_semver(#[trigger] t[a]@) by {
        if a < j {
            assert(t[a] == s[a]);
        } else if a > j {
            assert(t[a] == s[a - 1]);
        }
    }
}

/// Two sequences with one multiset hold the same elements, and the second
/// has no repeated element where the first has none.
proof fn lemma_same_multiset(a: Seq<Seq<char>>, b: Seq<Seq<char>>)
    requires
        a.to_multiset() == b.to_multiset(),
        a.no_duplicates(),
    ensures
        b.no_duplicates(),
        forall|v: Seq<char>| b.contains(v) <==> a.contains(v),
{
    broadcast use vstd::seq_lib::to_multiset_contains;
    a.lemma_multiset_has_no_duplicates();
    b.lemma_multiset_has_no_duplicates_conv();
    assert forall|v: Seq<char>| b.contains(v) <==> a.contains(v) by {
        vstd::seq_lib::to_multiset_contains(a, v);
        vstd::seq_lib::to_multiset_contains(b, v);
    }
}

/// A version that the release lists bundle, even in several channels,
/// stands exactly once in a version list without repeats that holds just
/// the bundled versions.
pub proof fn lemma_bundled_version_listed_once(lists: Seq<ChannelReleases>, versions: Seq<Seq<char>>, v: Seq<char>)
    requires
        versions.no_duplicates(),
        forall|x: Seq<char>| versions.contains(x) <==> appears(lists, x),
        appears(lists, v),
    ensures
        exists|i: int| 0 <= i < versions.len() && versions[i] == v
            && forall|j: int| 0 <= j < versions.len() && #[trigger] versions[j] == v ==> j == i,
{
    assert(versions.contains(v));
    let i = choose|i: int| 0 <= i < versions.len() && versions[i] == v;
    assert forall|j: int| 0 <= j < versions.len() && #[trigger] versions[j] == v implies j == i by {
        if j != i {
            assert(versions[j] == versions[i]);
        }
    }
}

/// Where no two different version texts have equal precedence, a version
/// list in descending order without repeats is strictly descending.
pub proof fn lemma_strictly_descending(versions: Seq<String>)
    requires
        descending(versions),
        views(versions).no_duplicates(),
        forall|a: Seq<char>, b: Seq<char>| a != b ==> #[trigger] semver_order(a, b) != Ordering::Equal,
    ensures
        forall|i: int| 0 <= i < versions.len() - 1 ==> #[trigger] semver_order(versions[i]@, versions[i + 1]@) == Ordering::Greater,
{
    assert forall|i: int| 0 <= i < versions.len() - 1 implies #[trigger] semver_order(versions[i]@, versions[i + 1]@) == Ordering::Greater by {
        assert(views(versions)[i] == versions[i]@);
        assert(views(versions)[i + 1] == versions[i + 1]@);
        assert(versions[i]@ != versions[i + 1]@);
    }
}

/// Two catalogs built from one feed hold the same versions, without
/// repeats, and the same alias table.
pub proof fn lemma_catalog_contents_repeatable(
    channels: Seq<ReleaseChannel>,
    lists: Seq<ChannelReleases>,
    first: Catalog,
    second: Catalog,
)
    requires
        views(first.versions@).no_duplicates(),
        views(second.versions@).no_duplicates(),
        forall|v: Seq<char>| views(first.versions@).contains(v) <==> appears(lists, v),
        forall|v: Seq<char>| views(second.versions@).contains(v) <==> appears(lists, v),
        aliases_match(first.aliases, channels),
        aliases_match(second.aliases, channels),
        opt_view(first.latest) == first_sdk(channels, None),
        opt_view(second.latest) == first_sdk(channels, None),
    ensures
        forall|v: Seq<char>| views(first.versions@).contains(v) <==> views(second.versions@).contains(v),
        opt_view(first.aliases.latest) == opt_view(second.aliases.latest),
        opt_view(first.aliases.current) == opt_view(second.aliases.current),
        opt_view(first.aliases.lts) == opt_view(second.aliases.lts),
        opt_view(first.aliases.sts) == opt_view(second.aliases.sts),
        opt_view(first.aliases.stable) == opt_view(second.aliases.stable),
        opt_view(first.latest) == opt_view(second.latest),
{
    assert forall|v: Seq<char>| views(first.versions@).contains(v) <==> views(second.versions@).contains(v) by {
        assert(views(first.versions@).contains(v) <==> appears(lists, v));
        assert(views(second.versions@).contains(v) <==> appears(lists, v));
    }
}

/// The alias that another alias stands for: `stable` for `lts`, `current`
/// for `latest`.
pub open spec fn alias_target(alias: Seq<char>) -> Option<Seq<char>> {
    if alias == "stable"@ {
        Some("lts"@)
    } else if alias == "current"@ {
        Some("latest"@)
    } else {
        None
    }
}

/// The alias that `alias` stands for, where it is a synonym.
pub fn resolve_alias(alias: &str) -> (r: Option<&'static str>)
    ensures
        r matches Some(t) ==> alias_target(alias@) == Some(t@),
        r is None ==> alias_target(alias@) is None,
{
    if str_eq(alias, "stable") {
        Some("lts")
    } else if str_eq(alias, "current") {
        Some("latest")
    } else {
        None
    }
}

} // verus!
