use changen::config::{MergeDevVersions, Release as ReleaseOptions};
use changen::de::parse_changelog;
use changen::error::Error;
use changen::provider::GitProvider;
use changen::release::release;
use changen::repository::{Period, Repository, try_detect_new_version};
use changen::utils::NthRelease;
use changen::Version;

/// A repository standing in for version control during tests.
struct FsTest {
    tags: Vec<&'static str>,
}

impl Repository for FsTest {
    fn last_commit_sha(&self) -> String {
        "0123456789abcdef".into()
    }

    fn commit_author(&self, _sha: &str) -> String {
        "someone".into()
    }

    fn commit_title(&self, _sha: &str) -> String {
        "fix: 1".into()
    }

    fn commit_body(&self, _sha: &str) -> String {
        "".into()
    }

    fn commit_files(&self, _sha: &str) -> Vec<String> {
        vec![]
    }

    fn commits_between_tags(&self, _tags: &Period) -> Vec<String> {
        vec![]
    }

    fn tags_list(&self) -> Result<Vec<Version>, Error> {
        let mut out = Vec::new();
        for t in &self.tags {
            out.push(Version::parse(t).unwrap());
        }
        Ok(out)
    }
}

fn release_options(version: Option<&str>) -> ReleaseOptions {
    ReleaseOptions {
        file: None,
        version: version.map(|v| Version::parse(v).unwrap()),
        previous_version: None,
        provider: GitProvider::Other,
        repo: None,
        omit_diff: true,
        force: false,
        header: None,
        merge_dev_versions: MergeDevVersions::Auto,
        stdout: false,
    }
}

#[test]
fn nth_release_minus_one_always_answers() {
    // A document with no staging block still answers at -1, with the
    // canonical default.
    let changelog = parse_changelog("## [0.1.0]\n").unwrap();
    assert!(changelog.unreleased.is_none());
    match changelog.nth_release(-1).unwrap() {
        NthRelease::Unreleased(r) => {
            assert_eq!(r.title.version, "Unreleased");
            assert!(r.note_sections.is_empty());
        }
        other => panic!("unexpected: {:?}", other),
    }
}

#[test]
fn nth_release_addressing() {
    let changelog = parse_changelog("## [0.1.0]\n\n## [0.2.0]\n").unwrap();
    match changelog.nth_release(0).unwrap() {
        NthRelease::Released(v, _) => assert_eq!(v, Version::new(0, 2, 0)),
        other => panic!("unexpected: {:?}", other),
    }
    match changelog.nth_release(1).unwrap() {
        NthRelease::Released(v, _) => assert_eq!(v, Version::new(0, 1, 0)),
        other => panic!("unexpected: {:?}", other),
    }
    match changelog.nth_release(2) {
        Err(Error::AddressingError { n }) => assert_eq!(n, 2),
        other => panic!("unexpected: {:?}", other),
    }
    match changelog.nth_release(-2) {
        Err(Error::AddressingError { n }) => assert_eq!(n, -2),
        other => panic!("unexpected: {:?}", other),
    }
}

#[test]
fn promotion_conflict() {
    let text = "## [Unreleased]\n\n### Added\n- fresh note\n\n## [1.0.0]\n\n### Fixed\n- old note\n";
    let repo = FsTest { tags: vec![] };

    // Promoting 1.0.0 into a document already holding 1.0.0 fails.
    let changelog = parse_changelog(text).unwrap();
    match release(&repo, changelog, &release_options(Some("1.0.0"))) {
        Err(Error::VersionAlreadyExists { version }) => assert_eq!(version, "1.0.0"),
        other => panic!("unexpected: {:?}", other),
    }

    // With force, the old release notes are discarded entirely.
    let changelog = parse_changelog(text).unwrap();
    let mut options = release_options(Some("1.0.0"));
    options.force = true;
    let (version, output) = release(&repo, changelog, &options).unwrap();
    assert_eq!(version, "1.0.0");
    assert!(!output.contains("old note"));
    assert!(output.contains("fresh note"));
}

#[test]
fn promotion_moves_staged_notes() {
    let text = "## [Unreleased]\n\n### Added\n- the feature\n\n## [0.1.0]\n";
    let repo = FsTest { tags: vec![] };
    let changelog = parse_changelog(text).unwrap();
    let (version, output) = release(&repo, changelog, &release_options(Some("0.2.0"))).unwrap();
    assert_eq!(version, "0.2.0");

    let after = parse_changelog(&output).unwrap();
    // A fresh empty staging release is left behind.
    assert!(after.unreleased.as_ref().unwrap().note_sections.is_empty());
    assert_eq!(after.releases.len(), 2);
    // The newest release holds the staged note.
    assert_eq!(after.releases[1].version, Version::new(0, 2, 0));
    let promoted = &after.releases[1].release;
    assert_eq!(promoted.note_sections[0].title, "Added");
    assert_eq!(promoted.note_sections[0].notes[0].message, "the feature");
}

#[test]
fn promotion_merges_dev_versions() {
    let text = "## [Unreleased]\n\n### Added\n- staged\n\n## [1.0.0-alpha.1]\n\n### Added\n- from alpha\n\n### Fixed\n- alpha fix\n";
    let repo = FsTest { tags: vec![] };
    let changelog = parse_changelog(text).unwrap();
    let (_, output) = release(&repo, changelog, &release_options(Some("1.0.0"))).unwrap();

    let after = parse_changelog(&output).unwrap();
    // The pre-release build of the same triple was folded in and removed.
    assert_eq!(after.releases.len(), 1);
    let promoted = &after.releases[0].release;
    assert_eq!(promoted.title.version, "1.0.0");
    let added = promoted
        .note_sections
        .iter()
        .find(|s| s.title == "Added")
        .unwrap();
    let messages: Vec<String> = added.notes.iter().map(|n| n.message.clone()).collect();
    assert_eq!(messages, vec!["staged".to_string(), "from alpha".to_string()]);
    assert!(promoted.note_sections.iter().any(|s| s.title == "Fixed"));
}

#[test]
fn promotion_resolves_version_from_tags() {
    let text = "## [Unreleased]\n\n### Added\n- staged\n";
    let repo = FsTest {
        tags: vec!["0.1.0", "0.2.0"],
    };
    let changelog = parse_changelog(text).unwrap();
    let (version, _) = release(&repo, changelog, &release_options(None)).unwrap();
    assert_eq!(version, "0.2.0");
}

#[test]
fn promotion_no_version_available() {
    let repo = FsTest { tags: vec![] };
    match try_detect_new_version(&repo, None) {
        Err(Error::NoVersionAvailable) => {}
        other => panic!("unexpected: {:?}", other),
    }
}

#[test]
fn promotion_previous_version_greater() {
    let text = "## [Unreleased]\n\n### Added\n- staged\n";
    let repo = FsTest { tags: vec![] };
    let changelog = parse_changelog(text).unwrap();
    let mut options = release_options(Some("1.0.0"));
    options.previous_version = Some(Version::parse("2.0.0").unwrap());
    match release(&repo, changelog, &options) {
        Err(Error::PreviousVersionGreaterThanNew { prev, new }) => {
            assert_eq!(prev, "2.0.0");
            assert_eq!(new, "1.0.0");
        }
        other => panic!("unexpected: {:?}", other),
    }
}

#[test]
fn promotion_attaches_links() {
    let text = "## [Unreleased]\n\n### Added\n- staged\n\n## [0.1.0]\n";
    let repo = FsTest { tags: vec![] };
    let changelog = parse_changelog(text).unwrap();
    let mut options = release_options(Some("0.2.0"));
    options.provider = GitProvider::Github;
    options.repo = Some("wiiznokes/changen".to_string());
    options.omit_diff = false;
    let (_, output) = release(&repo, changelog, &options).unwrap();
    assert!(output.contains("## [0.2.0](https://github.com/wiiznokes/changen/releases/tag/0.2.0)"));
    assert!(output.contains(
        "Full Changelog: https://github.com/wiiznokes/changen/compare/0.1.0...0.2.0"
    ));
}

#[test]
fn releases_accessors() {
    let changelog = parse_changelog("## [0.1.0]\n\n## [0.2.0]\n").unwrap();
    assert_eq!(changelog.last_version().unwrap(), Version::new(0, 2, 0));
    let keys = changelog.releases_keys();
    assert_eq!(keys, vec![Version::new(0, 2, 0), Version::new(0, 1, 0)]);
    let full = changelog.releases_full();
    assert_eq!(full[0].release.title.version, "0.2.0");
    let rels = changelog.releases();
    assert_eq!(rels[1].title.version, "0.1.0");
}

#[test]
fn parse_tags_sorted() {
    let texts = vec![
        "1.0.0".to_string(),
        "not a tag".to_string(),
        "0.2.0".to_string(),
        "1.0.0-alpha.2".to_string(),
        "1.0.0-alpha.10".to_string(),
    ];
    let tags = changen::repository::parse_tags(&texts);
    let shown: Vec<String> = tags.iter().map(|v| v.display_text()).collect();
    assert_eq!(
        shown,
        vec!["0.2.0", "1.0.0-alpha.2", "1.0.0-alpha.10", "1.0.0"]
    );
}

#[test]
fn changelog_constructor_is_empty() {
    let changelog = changen::ChangeLog::new();
    assert!(changelog.releases.is_empty());
    assert!(changelog.header.is_none());
    assert!(changelog.footer_links.links.is_empty());
    let unreleased = changelog.unreleased.as_ref().unwrap();
    assert_eq!(unreleased.title.version, "Unreleased");
    assert!(unreleased.note_sections.is_empty());
}
