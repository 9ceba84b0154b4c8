use changen::config::{CommitMessageParsing, Generate, MapMessageToSection};
use changen::note_generation::{commit_should_be_ignored, get_release_note, insert_release_note};
use changen::provider::GitProvider;
use changen::repository::RawCommit;

fn raw(title: &str, body: &str) -> RawCommit {
    RawCommit {
        author: "someone".into(),
        title: title.into(),
        body: body.into(),
        sha: "0123456789abcdef".into(),
        list_files: vec![],
    }
}

fn default_map() -> MapMessageToSection {
    MapMessageToSection(vec![
        ("Added".to_string(), vec!["feat".to_string(), "add".to_string()]),
        ("Fixed".to_string(), vec!["fix".to_string(), "bug".to_string()]),
        ("Documentation".to_string(), vec!["doc".to_string()]),
    ])
}

fn default_generate() -> Generate {
    Generate {
        file: None,
        map: None,
        parsing: CommitMessageParsing::Smart,
        exclude_unidentified: false,
        exclude_not_pr: false,
        provider: GitProvider::Other,
        repo: None,
        omit_pr_link: false,
        omit_thanks: false,
        stdout: false,
        specific: None,
        milestone: None,
        since: None,
        until: None,
    }
}

#[test]
fn note_generator_ignore_commit() {
    let mut raw_commit = raw("fix: something !log", "");

    assert!(commit_should_be_ignored(&raw_commit, "").bool());

    raw_commit.title = "fix: something log".into();

    assert!(!commit_should_be_ignored(&raw_commit, "").bool());
}

#[test]
fn release_note_generation_ignore_commit() {
    let mut raw_commit = raw("fix: something !log", "");

    assert!(commit_should_be_ignored(&raw_commit, "").bool());

    raw_commit.title = "fix: something log".into();

    assert!(!commit_should_be_ignored(&raw_commit, "").bool());
}

#[test]
fn release_note_from_commit() {
    let map = default_map();
    let options = default_generate();

    let (section, note) =
        get_release_note(&raw("fix(data): repair it", ""), None, "", &map, &options).unwrap();
    assert_eq!(section, "Fixed");
    assert_eq!(note.scope.as_deref(), Some("data"));
    assert_eq!(note.message, "repair it");
    assert!(note.context.is_empty());

    // The map is matched case aside.
    let (section, _) =
        get_release_note(&raw("FIX: shout", ""), None, "", &map, &options).unwrap();
    assert_eq!(section, "Fixed");
}

#[test]
fn release_note_unidentified() {
    let map = default_map();
    let mut options = default_generate();

    let (section, note) =
        get_release_note(&raw("just some words", ""), None, "", &map, &options).unwrap();
    assert_eq!(section, "Unidentified");
    assert_eq!(note.message, "just some words");

    options.exclude_unidentified = true;
    assert!(get_release_note(&raw("just some words", ""), None, "", &map, &options).is_err());

    options.exclude_unidentified = false;
    options.parsing = CommitMessageParsing::Strict;
    assert!(get_release_note(&raw("just some words", ""), None, "", &map, &options).is_err());
}

#[test]
fn release_note_smart_fallback() {
    let map = default_map();
    let options = default_generate();

    // The type is unknown to the map, but a needle occurs in the title.
    let (section, note) =
        get_release_note(&raw("weird: fix the doc", ""), None, "", &map, &options).unwrap();
    assert_eq!(section, "Fixed");
    assert_eq!(note.message, "fix the doc");
}

#[test]
fn release_note_pr_decoration() {
    let map = default_map();
    let options = default_generate();
    let pr = changen::provider::RelatedPr {
        url: "https://example.com/pull/7".into(),
        pr_id: "#7".into(),
        author: Some("someone".into()),
        author_link: Some("https://example.com/someone".into()),
        title: None,
        body: None,
        merge_commit: None,
        is_pr: true,
    };

    let (_, note) =
        get_release_note(&raw("feat: shiny", ""), Some(&pr), "", &map, &options).unwrap();
    assert_eq!(
        note.message,
        "shiny in [#7](https://example.com/pull/7) by [@someone](https://example.com/someone)"
    );
}

#[test]
fn insert_release_note_staging() {
    let mut unreleased = changen::model::default_unreleased();
    let note = changen::ReleaseSectionNote {
        scope: None,
        message: "first".into(),
        context: vec![],
    };
    insert_release_note(&mut unreleased, "Added".to_string(), note);
    assert_eq!(unreleased.note_sections.len(), 1);
    assert_eq!(unreleased.note_sections[0].title, "Added");
    assert_eq!(unreleased.note_sections[0].notes.len(), 1);

    let note2 = changen::ReleaseSectionNote {
        scope: None,
        message: "second".into(),
        context: vec![],
    };
    insert_release_note(&mut unreleased, "Added".to_string(), note2);
    assert_eq!(unreleased.note_sections.len(), 1);
    assert_eq!(unreleased.note_sections[0].notes.len(), 2);
    assert_eq!(unreleased.note_sections[0].notes[1].message, "second");
}

#[test]
fn ignore_commit_touching_changelog() {
    let mut raw_commit = raw("fix: something", "");
    raw_commit.list_files = vec!["src/lib.rs".to_string(), "CHANGELOG.md".to_string()];

    assert!(commit_should_be_ignored(&raw_commit, "CHANGELOG.md").bool());
    assert!(!commit_should_be_ignored(&raw_commit, "docs/CHANGELOG.md").bool());
}
