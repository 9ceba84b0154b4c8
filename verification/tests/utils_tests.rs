use changen::provider::{diff_link, DiffTags, GitProvider};
use changen::support::{matches_footer_link, match_release_title, Repo, TextInterpolate};
use changen::Version;

#[test]
fn utils_test() {
    let repo = Repo::try_from("wiiznokes/fan-control").unwrap();

    assert_eq!(
        repo,
        Repo {
            owner: "wiiznokes".into(),
            name: "fan-control".into()
        }
    );
}

#[test]
fn repo_format_rejected() {
    assert!(Repo::try_from("no-slash-here").is_err());
    assert!(Repo::try_from("a/b/c").is_err());
}

#[test]
fn test_regex() {
    assert!(matches_footer_link("[hello]:"));
    assert!(!matches_footer_link("[hello]"));
    assert!(!matches_footer_link("[hello:"));
    assert!(!matches_footer_link("hello]:"));
}

#[test]
fn test_regex_release() {
    assert!(match_release_title("## [2024.7.30]").is_some());
    assert!(match_release_title("# [2024.7.30]").is_none());
    assert!(match_release_title("## [Unreleased]").is_some());
    assert!(match_release_title("## [2024.7] - 2024-07-24").is_some());
    assert!(match_release_title("##[2024.7] - 2024-07-24").is_none());
    assert!(match_release_title("# [2024.7] - 2024-07-24").is_none());
}

#[test]
fn test_regex_release_section() {
    assert!(changen::text::str_contains("### Added", "### "));
    assert!(!changen::text::str_contains("## Added", "### "));
    assert!(!changen::text::str_contains("###Added", "### "));
    assert!(changen::text::str_contains("### [Added]", "### "));
}

#[test]
fn diff_links() {
    let res = diff_link(
        "wiiznokes/fan-control",
        &DiffTags {
            prev: None,
            new: Version::parse("0.1.0").unwrap(),
        },
    );

    assert_eq!(
        res,
        "https://github.com/wiiznokes/fan-control/commits/0.1.0".to_owned()
    );

    let res = diff_link(
        "wiiznokes/fan-control",
        &DiffTags {
            prev: Some(Version::parse("2024.7").unwrap()),
            new: Version::parse("2024.7.30").unwrap(),
        },
    );

    assert_eq!(
        res,
        "https://github.com/wiiznokes/fan-control/compare/2024.7...2024.7.30".to_owned()
    );
}

#[test]
fn provider_links() {
    let provider = GitProvider::Github;
    assert_eq!(
        provider.release_link("o/r", "1.2.3").unwrap(),
        "https://github.com/o/r/releases/tag/1.2.3"
    );
    assert!(GitProvider::Other.release_link("o/r", "1.2.3").is_none());
}

#[test]
fn interpolate_test() {
    let mut t = TextInterpolate::new("name: ###name, owner: ###owner".to_string(), "###", "");
    t.interpolate("name", "fan-control");
    t.interpolate("owner", "wiiznokes");
    assert_eq!(t.text(), "name: fan-control, owner: wiiznokes");
}
