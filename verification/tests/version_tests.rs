use changen::error::Error;
use changen::Version;

#[test]
fn version_test() {
    assert_eq!(Version::parse("24.04").unwrap(), Version::new(24, 4, 0));

    assert_eq!(Version::parse("2024.4").unwrap(), Version::new(2024, 4, 0));

    let v = Version::parse("03.04").unwrap();
    assert_eq!((v.major, v.minor, v.patch), (3, 4, 0));

    let v = Version::parse("24.00").unwrap();
    assert_eq!((v.major, v.minor, v.patch), (24, 0, 0));
}

#[test]
fn partial_version_display() {
    let v = Version::parse("24.04").unwrap();
    assert_eq!((v.major, v.minor, v.patch), (24, 4, 0));
    assert_eq!(v.display_text(), "24.04");
    assert!(v.partial);

    let v = Version::parse("24.00").unwrap();
    assert_eq!((v.major, v.minor, v.patch), (24, 0, 0));
    assert_eq!(v.display_text(), "24.00");
}

#[test]
fn strict_version_parts() {
    let v = Version::parse("1.2.3-alpha.1+build5").unwrap();
    assert_eq!((v.major, v.minor, v.patch), (1, 2, 3));
    assert_eq!(v.pre, "alpha.1");
    assert_eq!(v.build, "build5");
    assert!(v.is_prerelease());
    assert!(!v.partial);
    assert_eq!(v.display_text(), "1.2.3-alpha.1+build5");

    let v = Version::parse("1.2.3").unwrap();
    assert!(!v.is_prerelease());
    assert_eq!(v.display_text(), "1.2.3");
}

#[test]
fn invalid_version_format() {
    match Version::parse("not-a-version") {
        Err(Error::InvalidVersionFormat { text }) => assert_eq!(text, "not-a-version"),
        other => panic!("unexpected: {:?}", other),
    }
    assert!(Version::parse("").is_err());
    assert!(Version::parse("abc.def").is_err());
}

#[test]
fn version_equality_by_triple() {
    // Two texts normalizing to the same triple are the same version, even
    // with different display texts.
    assert_eq!(Version::parse("24.4.0").unwrap(), Version::parse("24.04").unwrap());
    assert!(Version::parse("1.0.0-alpha").unwrap() != Version::parse("1.0.0").unwrap());
}

#[test]
fn prerelease_precedence() {
    fn lt(a: &str, b: &str) -> bool {
        Version::parse(a).unwrap().key_less(&Version::parse(b).unwrap())
    }
    // All-digit identifiers compare numerically.
    assert!(lt("1.0.0-2", "1.0.0-10"));
    assert!(!lt("1.0.0-10", "1.0.0-2"));
    // All-digit identifiers come before alphanumeric ones.
    assert!(lt("1.0.0-1", "1.0.0-alpha"));
    // Alphanumeric identifiers compare by code point.
    assert!(lt("1.0.0-alpha", "1.0.0-beta"));
    // A strict prefix of identifiers comes first.
    assert!(lt("1.0.0-alpha", "1.0.0-alpha.1"));
    assert!(lt("1.0.0-alpha.1", "1.0.0-alpha.beta"));
    // Any pre-release comes before the release itself.
    assert!(lt("1.0.0-rc.1", "1.0.0"));
    assert!(!lt("1.0.0", "1.0.0-rc.1"));
    // And the triple still decides first.
    assert!(lt("1.0.0", "1.0.1-alpha"));
}

#[test]
fn build_metadata_keys() {
    // Versions differing only in build metadata stay distinct keys.
    let b1 = Version::parse("1.0.0+b1").unwrap();
    let b2 = Version::parse("1.0.0+b2").unwrap();
    assert!(b1 != b2);
    assert!(b1.key_less(&b2));
    assert!(!b2.key_less(&b1));
    // A bare version comes before the same version with build metadata.
    let bare = Version::parse("1.0.0").unwrap();
    assert!(bare.key_less(&b1));
    assert_eq!(bare, Version::parse("1.0.0").unwrap());
}
