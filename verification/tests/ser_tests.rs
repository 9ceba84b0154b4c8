use changen::de::parse_changelog;
use changen::ser::{serialize_changelog, Options};
use changen::{
    ChangeLog, FooterLink, FooterLinks, Release, ReleaseEntry, ReleaseSection,
    ReleaseSectionNote, ReleaseTitle, Version,
};

fn changelog1() -> ChangeLog {
    ChangeLog {
        header: Some("## Changelog\n\nHello, this is a changelog that follow semver!".into()),
        unreleased: None,
        releases: vec![
            ReleaseEntry {
                version: Version::new(0, 1, 0),
                release: Release {
                    title: ReleaseTitle {
                        version: Version::new(0, 1, 0).display_text(),
                        title: Some("i'm am the title of the night".into()),
                        release_link: None,
                    },
                    header: Some("header".into()),
                    note_sections: vec![ReleaseSection {
                        title: "Fixed".into(),
                        notes: vec![
                            ReleaseSectionNote {
                                scope: Some("data".into()),
                                message: "the program".into(),
                                context: vec![
                                    "- fix la base".into(),
                                    "49-3 hihi".into(),
                                    "lol".into(),
                                ],
                            },
                            ReleaseSectionNote {
                                scope: Some("ui".into()),
                                message: "the widget".into(),
                                context: vec![],
                            },
                            ReleaseSectionNote {
                                scope: None,
                                message: "lol".into(),
                                context: vec![],
                            },
                            ReleaseSectionNote {
                                scope: Some("ui".into()),
                                message: "the widget".into(),
                                context: vec![],
                            },
                            ReleaseSectionNote {
                                scope: Some("data".into()),
                                message: "the widget".into(),
                                context: vec![],
                            },
                        ],
                    }],
                    footer: None,
                },
            },
            ReleaseEntry {
                version: Version::new(0, 1, 1),
                release: Release {
                    title: ReleaseTitle {
                        version: Version::new(0, 1, 1).display_text(),
                        title: None,
                        release_link: Some(
                            "https://github.com/wiiznokes/fan-control/releases/tag/v2024.7.30"
                                .into(),
                        ),
                    },
                    header: None,
                    note_sections: vec![],
                    footer: None,
                },
            },
        ],
        footer_links: FooterLinks {
            links: vec![
                FooterLink {
                    text: "0.6.8".into(),
                    link: "https://github.com/taiki-e/parse-changelog/compare/v0.6.7...v0.6.8"
                        .into(),
                },
                FooterLink {
                    text: "0.6.7".into(),
                    link: "https://github.com/taiki-e/parse-changelog/compare/v0.6.6...v0.6.7"
                        .into(),
                },
            ],
        },
    }
}

#[test]
fn ser_test() {
    let output = serialize_changelog(&changelog1(), &Options::default());

    // Most recent release first, blocks separated by one blank line, links
    // at the end.
    assert!(output.starts_with("## Changelog\n\nHello, this is a changelog that follow semver!\n"));
    let pos_011 = output.find("## [0.1.1]").unwrap();
    let pos_010 = output.find("## [0.1.0]").unwrap();
    assert!(pos_011 < pos_010);
    assert!(output.contains("### Fixed\n\n- data: the program\n  - fix la base\n  49-3 hihi\n  lol\n"));
    assert!(output.ends_with(
        "[0.6.8]: https://github.com/taiki-e/parse-changelog/compare/v0.6.7...v0.6.8\n[0.6.7]: https://github.com/taiki-e/parse-changelog/compare/v0.6.6...v0.6.7\n"
    ));
}

#[test]
fn last_version() {
    assert_eq!(
        changelog1().last_version().unwrap(),
        Version::new(0, 1, 1)
    );
}

#[test]
fn validate_default_changelog() {
    let input = "# Changelog\n\nAll notable changes to this project will be documented in this file.\n\n## [Unreleased]\n";

    let changelog = parse_changelog(input).unwrap();

    let output = serialize_changelog(&changelog, &Options::default());

    assert_eq!(input, output);
}
