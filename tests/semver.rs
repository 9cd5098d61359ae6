use phpp::error::ComposerError;
use phpp::package::{normalize_version_chars, P2};
use semver::Prerelease;

fn normalized(v: &str) -> String {
    normalize_version_chars(&v.chars().collect()).into_iter().collect()
}

#[test]
fn test_semver() {
    assert!(P2::semver_check("name", "^7.0| ^8.0", "7.2.3").unwrap());
    assert!(P2::semver_check("name", "^7.0| ^8.0", "8.2.3").unwrap());
    assert!(!P2::semver_check("name", "^7.0| ^8.0", "9.2.3").unwrap());
    assert!(!P2::semver_check("name", "^7.0|| ^8.0", "9.2.3").unwrap());
    assert!(P2::semver_check("name", "^7.0| ^8.0", "8.0").unwrap());
    assert!(P2::semver_check("name", ">=7.4", "8.0").unwrap());
    assert!(!P2::semver_check("name", ">=8.1", "8.0").unwrap());

    let chars = "1.2.4".chars();
    let dot_count = chars.filter(|&c| c == '.').count();
    assert_eq!(dot_count, 2);

    let version = semver::Version::parse("5.0.8").unwrap();
    assert!(version.pre == Prerelease::EMPTY);
}

#[test]
fn alternatives_with_spaces() {
    assert!(P2::semver_check("name", "^7.0 | ^8.0", "7.2.3").unwrap());
    assert!(!P2::semver_check("name", "^7.0 | ^8.0", "9.2.3").unwrap());
    assert!(P2::semver_check("name", "^7.0 || ^8.0", "8.1.0").unwrap());
}

#[test]
fn star_matches_stable_only() {
    assert!(P2::semver_check("name", "*", "1.2.3").unwrap());
    assert!(!P2::semver_check("name", "*", "1.3.0-rc1").unwrap());
}

#[test]
fn versions_are_normalized() {
    assert_eq!(normalized("v1.2.3"), "1.2.3");
    assert_eq!(normalized("V1.2.3"), "1.2.3");
    assert_eq!(normalized("1.2"), "1.2.0");
    assert_eq!(normalized("v1.2"), "1.2.0");
    assert_eq!(normalized("1.2.3"), "1.2.3");
    assert!(P2::semver_check("name", "=1.2.0", "1.2").unwrap());
    assert!(P2::semver_check("name", "1.2.3", "v1.2.3").unwrap());
    assert!(P2::semver_check("name", "v1.2.3", "1.2.3").unwrap());
}

#[test]
fn hyphen_range() {
    assert!(P2::semver_check("name", "1.0 - 2.0", "1.5.0").unwrap());
    assert!(P2::semver_check("name", "1.0 - 2.0", "2.0.0").unwrap());
    assert!(!P2::semver_check("name", "1.0 - 2.0", "2.1.0").unwrap());
    assert!(!P2::semver_check("name", "1.0 - 2.0", "0.9.0").unwrap());
}

#[test]
fn compound_bounds() {
    assert!(P2::semver_check("name", ">1.0 <2.0", "1.5.0").unwrap());
    assert!(!P2::semver_check("name", ">1.0 <2.0", "2.0.0").unwrap());
    assert!(P2::semver_check("name", "\\u003E1.0 \\u003C2.0", "1.5.0").unwrap());
    assert!(!P2::semver_check("name", "\\u003E=1.6", "1.5.0").unwrap());
}

#[test]
fn tilde_and_caret() {
    assert!(P2::semver_check("name", "~1.2", "1.2.9").unwrap());
    assert!(!P2::semver_check("name", "~1.2", "1.3.0").unwrap());
    assert!(P2::semver_check("name", "^1", "1.9.0").unwrap());
    assert!(!P2::semver_check("name", "^1", "2.2.3").unwrap());
}

#[test]
fn malformed_inputs() {
    assert_eq!(
        P2::semver_check("name", "^1.0", "dev-master"),
        Err(ComposerError::MalformedVersion)
    );
    assert_eq!(
        P2::semver_check("name", ">1<2", "1.0.0"),
        Err(ComposerError::MalformedConstraint)
    );
    assert_eq!(
        P2::semver_check("name", "@1.0", "1.0.0"),
        Err(ComposerError::MalformedConstraint)
    );
    assert_eq!(
        P2::semver_check("name", "^1.0 | @2", "1.0.0"),
        Err(ComposerError::MalformedConstraint)
    );
}

#[test]
fn alternatives_are_tried_from_the_last() {
    // The last alternative matches before the malformed first one is read.
    assert_eq!(P2::semver_check("name", "@1 | ^2.0", "2.1.0"), Ok(true));
}

#[test]
fn record_versions_are_read_by_semver() {
    let record = phpp::package::Version {
        name: None,
        version: "v1.3.0-rc1".to_string(),
        version_normalized: "1.3.0.1".to_string(),
        source: None,
        dist: None,
        require: None,
        require_dev: None,
        autoload: None,
    };
    let parsed = record.semver().unwrap();
    assert_eq!((parsed.major, parsed.minor, parsed.patch), (1, 3, 0));
    assert_eq!(parsed.pre, "rc1");
    assert_eq!(parsed.build, "");
    let short = phpp::package::Version {
        version: "1.2".to_string(),
        ..record
    };
    let padded = short.semver().unwrap();
    assert_eq!((padded.major, padded.minor, padded.patch), (1, 2, 0));
    let bad = phpp::package::Version {
        version: "dev-master".to_string(),
        ..short
    };
    assert!(matches!(bad.semver(), Err(ComposerError::MalformedVersion)));
}

#[test]
fn hyphen_range_needs_spaces_and_two_sides() {
    assert!(P2::semver_check("name", "1.0.0-alpha - 2.0.0", "1.5.0").unwrap());
    assert!(!P2::semver_check("name", "1.0.0-alpha - 2.0.0", "2.0.1").unwrap());
    assert!(P2::semver_check("name", "1.0.0-beta", "1.0.0-beta").unwrap());
    assert_eq!(
        P2::semver_check("name", "1.0 - 2.0 - 3.0", "1.5.0"),
        Err(ComposerError::MalformedConstraint)
    );
    assert_eq!(
        P2::semver_check("name", ">1.0 <2.0 <3.0", "1.5.0"),
        Err(ComposerError::MalformedConstraint)
    );
}
