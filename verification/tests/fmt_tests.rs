use changen::de::parse_changelog;
use changen::fmt::{Options, SortOptions};
use changen::ser::{serialize_changelog, serialize_release_section_note, Options as SerOptions};
use changen::{ReleaseSection, ReleaseSectionNote};

fn default_sort_order() -> Vec<String> {
    vec![
        "Security".into(),
        "Added".into(),
        "Changed".into(),
        "Removed".into(),
        "Fixed".into(),
        "Deprecated".into(),
        "Documentation".into(),
    ]
}

fn sort_options(order: Vec<String>, sort_scope: bool) -> Options {
    Options {
        sort_options: SortOptions {
            section_order: order,
            sort_scope,
        },
    }
}

#[test]
fn test2() {
    let release_note = ReleaseSectionNote {
        scope: Some("data".into()),
        message: "the program".into(),
        context: vec!["- fix la base".into(), "49-3 hihi".into()],
    };

    let mut output = String::new();

    serialize_release_section_note(&mut output, &release_note);

    assert_eq!(output, "- data: the program\n  - fix la base\n  49-3 hihi\n");
}

#[test]
fn end_to_end_file() {
    let init = "## [Unreleased]\n\n### Fixed\n- ui: b\n- a\n- ui: c\n- data: d\n\n## [0.1.0]\n";
    let expect = "## [Unreleased]\n\n### Fixed\n\n- ui: b\n- ui: c\n- data: d\n- a\n\n## [0.1.0]\n";

    let mut changelog = parse_changelog(init).unwrap();
    changelog.sanitize(&sort_options(default_sort_order(), true));
    let res = serialize_changelog(&changelog, &SerOptions::default());
    assert_eq!(res, expect);
}

#[test]
fn ordering_law_scenario() {
    // Section order ["Security", "Added"] applied to sections
    // {"Added", "Fixed", "Security"} yields ["Security", "Added", "Fixed"].
    let input = "## [1.0.0]\n\n### Added\n- a\n\n### Fixed\n- f\n\n### Security\n- s\n";
    let mut changelog = parse_changelog(input).unwrap();
    changelog.sanitize(&sort_options(vec!["Security".into(), "Added".into()], true));
    let titles: Vec<String> = changelog.releases[0]
        .release
        .note_sections
        .iter()
        .map(|s| s.title.clone())
        .collect();
    assert_eq!(titles, vec!["Security", "Added", "Fixed"]);
}

#[test]
fn scope_grouping_scenario() {
    // Notes [A(scope=x), B(no scope), C(scope=x), D(scope=y)] group to
    // [A, C, D, B]: the block of two first, then the block of one, the
    // scopeless note last.
    let input = "## [1.0.0]\n\n### Fixed\n- x: A\n- B\n- x: C\n- y: D\n";
    let mut changelog = parse_changelog(input).unwrap();
    changelog.sanitize(&sort_options(Vec::new(), true));
    let notes: Vec<String> = changelog.releases[0].release.note_sections[0]
        .notes
        .iter()
        .map(|n| n.message.clone())
        .collect();
    assert_eq!(notes, vec!["A", "C", "D", "B"]);
}

#[test]
fn dedup_and_remove_empty() {
    let input = "## [1.0.0]\n\n### Fixed\n- same\n- same\n- other\n\n### Added\n-  \n";
    let mut changelog = parse_changelog(input).unwrap();
    changelog.sanitize(&sort_options(Vec::new(), true));
    let release = &changelog.releases[0].release;
    // The empty-message note is dropped and its section with it; the
    // duplicate collapses to its first occurrence.
    assert_eq!(release.note_sections.len(), 1);
    let notes: Vec<String> = release.note_sections[0]
        .notes
        .iter()
        .map(|n| n.message.clone())
        .collect();
    assert_eq!(notes, vec!["same", "other"]);
}

#[test]
fn sanitize_materializes_unreleased() {
    let input = "## [0.1.0]\n";
    let mut changelog = parse_changelog(input).unwrap();
    assert!(changelog.unreleased.is_none());
    changelog.sanitize(&Options::default());
    let unreleased = changelog.unreleased.as_ref().unwrap();
    assert_eq!(unreleased.title.version, "Unreleased");
    assert!(unreleased.note_sections.is_empty());
}

#[test]
fn sanitize_idempotent_scenario() {
    // Sanitizing twice is sanitizing once, scope grouping included.
    let input = "## [Unreleased]\n\n### Fixed\n- ui: b\n- a\n- ui: c\n- data: d\n- a\n\n### Added\n- x\n\n## [0.1.0]\n\n### Fixed\n- f\n";
    let options = sort_options(default_sort_order(), true);
    let mut once = parse_changelog(input).unwrap();
    once.sanitize(&options);
    let mut twice = once.clone();
    twice.sanitize(&options);
    assert_eq!(once, twice);
    assert_eq!(
        serialize_changelog(&once, &SerOptions::default()),
        serialize_changelog(&twice, &SerOptions::default())
    );
}

#[test]
fn section_order_from_map() {
    let map = changen::config::MapMessageToSection(vec![
        ("Security".to_string(), vec!["security".to_string()]),
        ("Added".to_string(), vec!["feat".to_string()]),
    ]);
    let options = map.to_fmt_options();
    assert_eq!(
        options.sort_options.section_order,
        vec!["Security".to_string(), "Added".to_string()]
    );
    assert!(options.sort_options.sort_scope);
}

#[test]
fn empty_section_kept_out_of_output() {
    let sec = ReleaseSection {
        title: "Empty".into(),
        notes: vec![],
    };
    let release = changen::Release {
        title: changen::ReleaseTitle {
            version: "1.0.0".into(),
            release_link: None,
            title: None,
        },
        header: None,
        note_sections: vec![sec],
        footer: None,
    };
    let mut s = String::new();
    changen::ser::serialize_release(&mut s, &release, &changen::ser::OptionsRelease::default());
    assert_eq!(s, "## [1.0.0]\n");
}
