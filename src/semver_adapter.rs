//! The calls into the `semver` crate. Each one is named by what the crate
//! computes from the texts it is given; the constraint grammar built on top of
//! them lives in `package`.
use vstd::prelude::*;

verus! {

/// Declares `semver::Error`, the failure of the semver parsers; it is mapped to
/// the library's own error where it is met.
#[verifier::external_type_specification]
#[verifier::external_body]
pub struct ExSemverError(semver::Error);

/// A version as the semver reader splits it up.
pub struct SemverVersion {
    pub major: u64,
    pub minor: u64,
    pub patch: u64,
    pub pre: String,
    pub build: String,
}

impl SemverVersion {
    pub open spec fn parts(&self) -> (u64, u64, u64, Seq<char>, Seq<char>) {
        (self.major, self.minor, self.patch, self.pre@, self.build@)
    }
}

/// What `semver::Version::parse` reads from `text`: `None` where it refuses the
/// text, else the major, minor and patch numbers, the pre-release tag and the
/// build metadata.
pub uninterp spec fn semver_parse_of(text: Seq<char>) -> Option<(u64, u64, u64, Seq<char>, Seq<char>)>;

/// Whether `semver::VersionReq::parse` accepts `req` (`None` where it does not)
/// and whether `VersionReq::matches` then holds of the version that
/// `semver::Version::parse` reads from `version`.
pub uninterp spec fn semver_req_match_of(req: Seq<char>, version: Seq<char>) -> Option<bool>;

/// Whether `semver::Comparator::parse` accepts both `low` and `high` (`None`
/// where it refuses either) and whether `VersionReq::matches` then holds, for
/// the requirement made of those two comparators, of the version that
/// `semver::Version::parse` reads from `version`.
pub uninterp spec fn semver_pair_match_of(low: Seq<char>, high: Seq<char>, version: Seq<char>) -> Option<bool>;

/// Relies on `semver::Version::parse`, and on `Prerelease::as_str` and
/// `BuildMetadata::as_str` to hand the two tags back as text.
#[verifier::external_body]
pub(crate) fn parse_semver(text: &str) -> (r: Result<SemverVersion, semver::Error>)
    ensures
        match r {
            Ok(v) => semver_parse_of(text@) == Some(v.parts()),
            Err(_) => semver_parse_of(text@) is None,
        },
{
    match semver::Version::parse(text) {
        Ok(v) => Ok(SemverVersion {
            major: v.major,
            minor: v.minor,
            patch: v.patch,
            pre: v.pre.as_str().to_string(),
            build: v.build.as_str().to_string(),
        }),
        Err(e) => Err(e),
    }
}

/// Relies on `semver::VersionReq::parse` and `VersionReq::matches`; the
/// version is read by `semver::Version::parse`, which accepts it. For `*`,
/// `parse` gives `VersionReq::STAR`, which has no comparators, and `matches`
/// then holds exactly when the version has no pre-release tag.
#[verifier::external_body]
pub(crate) fn req_matches(req: &str, version: &str) -> (r: Result<bool, semver::Error>)
    requires
        semver_parse_of(version@) is Some,
    ensures
        match r {
            Ok(b) => semver_req_match_of(req@, version@) == Some(b) && (req@ == "*"@ ==> b == (
            semver_parse_of(version@)->Some_0.3.len() == 0)),
            Err(_) => semver_req_match_of(req@, version@) is None && req@ != "*"@,
        },
{
    let version = semver::Version::parse(version)?;
    let req = semver::VersionReq::parse(req)?;
    Ok(req.matches(&version))
}

/// Relies on `semver::Comparator::parse` for each bound and on
/// `VersionReq::matches` for the requirement made of the two; the version is
/// read by `semver::Version::parse`, which accepts it.
#[verifier::external_body]
pub(crate) fn pair_matches(low: &str, high: &str, version: &str) -> (r: Result<bool, semver::Error>)
    requires
        semver_parse_of(version@) is Some,
    ensures
        match r {
            Ok(b) => semver_pair_match_of(low@, high@, version@) == Some(b),
            Err(_) => semver_pair_match_of(low@, high@, version@) is None,
        },
{
    let version = semver::Version::parse(version)?;
    let low = semver::Comparator::parse(low)?;
    let high = semver::Comparator::parse(high)?;
    Ok(semver::VersionReq { comparators: vec![low, high] }.matches(&version))
}

} // verus!
