use changen::de::parse_changelog;
use changen::error::Error;
use changen::ser::{serialize_changelog, serialize_release, Options, OptionsRelease};

#[test]
fn release_title() {
    let input = "## [2024.7] - 2024-07-24\n";

    let changelog = parse_changelog(input).unwrap();
    assert_eq!(changelog.releases.len(), 1);
    let release = &changelog.releases[0].release;
    assert_eq!(release.title.version, "2024.7");
    assert_eq!(release.title.title.as_deref(), Some("2024-07-24"));

    let mut s = String::new();
    serialize_release(&mut s, release, &OptionsRelease::default());

    assert_eq!(input, s);
}

#[test]
fn parse_full_document() {
    let input = "## Changelog\n\nHello!\n\n## [Unreleased]\n\n### Added\n\n- new thing\n\n## [0.1.0](https://example.com/tag)\n\nrelease header\n\n### Fixed\n- data: the program\n  - fix la base\n\nrelease footer\n\n[a]: https://example.com/a\n[b]: https://example.com/b\n";

    let changelog = parse_changelog(input).unwrap();
    assert_eq!(changelog.header.as_deref(), Some("## Changelog\n\nHello!"));

    let unreleased = changelog.unreleased.as_ref().unwrap();
    assert_eq!(unreleased.title.version, "Unreleased");
    assert_eq!(unreleased.note_sections.len(), 1);
    assert_eq!(unreleased.note_sections[0].title, "Added");
    assert_eq!(unreleased.note_sections[0].notes[0].message, "new thing");
    assert_eq!(unreleased.note_sections[0].notes[0].scope, None);

    assert_eq!(changelog.releases.len(), 1);
    let release = &changelog.releases[0].release;
    assert_eq!(release.title.version, "0.1.0");
    assert_eq!(
        release.title.release_link.as_deref(),
        Some("https://example.com/tag")
    );
    assert_eq!(release.header.as_deref(), Some("release header"));
    assert_eq!(release.footer.as_deref(), Some("release footer"));
    let fixed = &release.note_sections[0];
    assert_eq!(fixed.title, "Fixed");
    assert_eq!(fixed.notes[0].scope.as_deref(), Some("data"));
    assert_eq!(fixed.notes[0].message, "the program");
    assert_eq!(fixed.notes[0].context, vec!["- fix la base".to_string()]);

    assert_eq!(changelog.footer_links.links.len(), 2);
    assert_eq!(changelog.footer_links.links[0].text, "a");
    assert_eq!(changelog.footer_links.links[1].link, "https://example.com/b");
}

#[test]
fn parse_rejects_bad_version() {
    let input = "## [not-a-version]\n";
    match parse_changelog(input) {
        Err(Error::InvalidVersionFormat { text }) => assert_eq!(text, "not-a-version"),
        other => panic!("unexpected: {:?}", other),
    }
}

#[test]
fn round_trip_reparse() {
    // Round trip A on a concrete model: a document built by the formatter
    // from a sanitized model parses back to the same model.
    let input = "## [Unreleased]\n\n### Fixed\n- data: the program\n  - fix la base\n\n## [0.1.0]\n";
    let mut changelog = parse_changelog(input).unwrap();
    changelog.sanitize(&changen::fmt::Options::default());
    let text = serialize_changelog(&changelog, &Options::default());
    let reparsed = parse_changelog(&text).unwrap();
    assert_eq!(reparsed, changelog);
}

#[test]
fn title_quirk_truncates_at_bracket() {
    // The title text excludes `]`: a literal `]` in the human title cuts it
    // short, a known quirk kept for compatibility.
    let input = "## [1.0.0] - title [with bracket]\n";
    let changelog = parse_changelog(input).unwrap();
    let release = &changelog.releases[0].release;
    assert_eq!(release.title.title.as_deref(), Some("title [with bracket"));
}

#[test]
fn end_to_end_scenario() {
    let input = "## [Unreleased]\n\n### Fixed\n- data: the program\n  - fix la base\n\n## [0.1.0]\n";

    let mut changelog = parse_changelog(input).unwrap();

    let unreleased = changelog.unreleased.as_ref().unwrap();
    assert_eq!(unreleased.note_sections.len(), 1);
    let fixed = &unreleased.note_sections[0];
    assert_eq!(fixed.title, "Fixed");
    assert_eq!(fixed.notes.len(), 1);
    assert_eq!(fixed.notes[0].scope.as_deref(), Some("data"));
    assert_eq!(fixed.notes[0].message, "the program");
    assert_eq!(fixed.notes[0].context, vec!["- fix la base".to_string()]);
    assert_eq!(changelog.releases.len(), 1);
    assert_eq!(changelog.releases[0].release.title.version, "0.1.0");
    assert!(changelog.releases[0].release.note_sections.is_empty());

    // Sanitizing and reformatting reproduces the canonical text: the
    // formatter always puts one blank line after a section title.
    changelog.sanitize(&changen::fmt::Options::default());
    let output = serialize_changelog(&changelog, &Options::default());
    let canonical = "## [Unreleased]\n\n### Fixed\n\n- data: the program\n  - fix la base\n\n## [0.1.0]\n";
    assert_eq!(output, canonical);

    // And from there the text is a fixed point of parse-and-format.
    let mut again = parse_changelog(canonical).unwrap();
    again.sanitize(&changen::fmt::Options::default());
    assert_eq!(serialize_changelog(&again, &Options::default()), canonical);
}
