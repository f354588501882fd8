use vstd::prelude::*;
use std::cmp::Ordering;

verus! {

/// Whether the text is a semantic version that `semver::Version::parse` accepts.
pub uninterp spec fn is_semver(s: Seq<char>) -> bool;

/// How two semantic versions compare under `semver::Version`'s ordering.
pub uninterp spec fn semver_order(a: Seq<char>, b: Seq<char>) -> Ordering;

/// The ordering seen from the other side.
pub open spec fn reversed(o: Ordering) -> Ordering {
    match o {
        Ordering::Less => Ordering::Greater,
        Ordering::Equal => Ordering::Equal,
        Ordering::Greater => Ordering::Less,
    }
}

/// Relies on `semver::Version::parse`: whether the text is a semantic version.
#[verifier::external_body]
pub(crate) fn parses_as_semver(s: &str) -> (r: bool)
    ensures
        r == is_semver(s@),
{
    semver::Version::parse(s).is_ok()
}

/// Relies on `Ord::cmp` of `semver::Version` (precedence of major, minor,
/// patch and pre-release, then build metadata); `Ord` makes the comparison
/// of the swapped pair the reverse one.
#[verifier::external_body]
pub(crate) fn compare_semver(a: &str, b: &str) -> (r: Ordering)
    requires
        is_semver(a@),
        is_semver(b@),
    ensures
        r == semver_order(a@, b@),
        semver_order(b@, a@) == reversed(r),
{
    match (semver::Version::parse(a), semver::Version::parse(b)) {
        (Ok(x), Ok(y)) => x.cmp(&y),
        _ => Ordering::Equal,
    }
}

} // verus!
