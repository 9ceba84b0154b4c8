//! Turning one raw commit into a release note: deciding whether the commit
//! is ignored, which section its note belongs to, how the note message is
//! decorated with pull-request credits, and staging the note into the
//! `unreleased` release.

use vstd::prelude::*;

use crate::commit_parser::{p_commit, parse_commit, CommitV};
use crate::config::{spec_find_section, spec_map_section, CommitMessageParsing, Generate,
    MapMessageToSection};
use crate::model::{NoteV, Release, ReleaseSection, ReleaseSectionNote, ReleaseV, SectionV};
use crate::provider::{RelatedPr, RelatedPrV};
use crate::release::merge_one_section;
use crate::repository::RawCommit;
use crate::text::{contains_seq, lower_of, str_contains};

verus! {

/// Whether a commit asks to be left out of the changelog.
#[derive(Debug, Clone, PartialEq, Eq)]
pub enum Response {
    Yes { reason: String },
    No,
}

impl Response {
    /// The bare decision.
    pub fn bool(&self) -> (r: bool)
        ensures
            r == (self matches Response::Yes { .. }),
    {
        match self {
            Response::Yes { .. } => true,
            Response::No => false,
        }
    }
}

/// The markers that ask for a commit to be left out, checked in order.
pub open spec fn ignore_patterns() -> Seq<Seq<char>> {
    seq![
        "(skip changelog)"@,
        "(ignore changelog)"@,
        "!changelog"@,
        "(skip log)"@,
        "(ignore log)"@,
        "!log"@,
        "(skip chglog)"@,
        "(ignore chglog)"@,
        "!chglog"@,
        "(skip notes)"@,
        "(ignore notes)"@,
        "!notes"@,
    ]
}

/// A marker occurs in the commit title or its description.
pub open spec fn spec_marker_hit(title: Seq<char>, body: Seq<char>) -> bool {
    exists|i: int|
        0 <= i < ignore_patterns().len() && (contains_seq(title, #[trigger] ignore_patterns()[i])
            || contains_seq(body, ignore_patterns()[i]))
}

/// The commit's changed-file list holds the changelog itself.
pub open spec fn spec_file_hit(files: Seq<Seq<char>>, path: Seq<char>) -> bool {
    exists|i: int| 0 <= i < files.len() && #[trigger] files[i] == path
}

/// The commit stays out of the changelog: it touched the changelog file, or
/// a marker occurs in its title or description.
pub open spec fn spec_ignored(
    files: Seq<Seq<char>>,
    path: Seq<char>,
    title: Seq<char>,
    body: Seq<char>,
) -> bool {
    spec_file_hit(files, path) || spec_marker_hit(title, body)
}

/// Whether this marker occurs in the title or the description; on a hit the
/// answer carries the marker in its reason.
fn hit(title: &str, body: &str, pat: &str) -> (r: Option<Response>)
    ensures
        r is Some <==> (contains_seq(title@, pat@) || contains_seq(body@, pat@)),
        r matches Some(resp) ==> resp matches Response::Yes { .. },
{
    if str_contains(title, pat) || str_contains(body, pat) {
        let mut reason = crate::version::copy_str("\"");
        reason.append(pat);
        reason.append("\" was matched in the commit title or description.");
        Some(Response::Yes { reason })
    } else {
        None
    }
}

/// Whether a commit stays out of the changelog: its changed-file list holds
/// the changelog path, or one of the markers occurs in its title or
/// description.
pub fn commit_should_be_ignored(raw: &RawCommit, changelog_path: &str) -> (r: Response)
    ensures
        (r matches Response::Yes { .. }) == spec_ignored(
            raw.list_files.deep_view(),
            changelog_path@,
            raw.title@,
            raw.body@,
        ),
{
    let ghost files = raw.list_files.deep_view();
    let mut f: usize = 0;
    while f < raw.list_files.len()
        invariant
            0 <= f <= raw.list_files@.len(),
            files == raw.list_files.deep_view(),
            files.len() == raw.list_files@.len(),
            forall|k: int| 0 <= k < f ==> #[trigger] files[k] != changelog_path@,
        decreases raw.list_files@.len() - f,
    {
        proof {
            assert(files[f as int] == raw.list_files@[f as int]@);
        }
        if crate::text::str_eq(raw.list_files[f].as_str(), changelog_path) {
            return Response::Yes {
                reason: crate::version::copy_str(
                    "The changelog was modified in this commit.",
                ),
            };
        }
        f = f + 1;
    }
    proof {
        assert(!spec_file_hit(files, changelog_path@));
    }
    let title = raw.title.as_str();
    let body = raw.body.as_str();
    proof {
        reveal_strlit("(skip changelog)");
        reveal_strlit("(ignore changelog)");
        reveal_strlit("!changelog");
        reveal_strlit("(skip log)");
        reveal_strlit("(ignore log)");
        reveal_strlit("!log");
        reveal_strlit("(skip chglog)");
        reveal_strlit("(ignore chglog)");
        reveal_strlit("!chglog");
        reveal_strlit("(skip notes)");
        reveal_strlit("(ignore notes)");
        reveal_strlit("!notes");
    }
    if let Some(resp) = hit(title, body, "(skip changelog)") {
        proof {
            assert(ignore_patterns()[0] == "(skip changelog)"@);
        }
        return resp;
    }
    if let Some(resp) = hit(title, body, "(ignore changelog)") {
        proof {
            assert(ignore_patterns()[1] == "(ignore changelog)"@);
        }
        return resp;
    }
    if let Some(resp) = hit(title, body, "!changelog") {
        proof {
            assert(ignore_patterns()[2] == "!changelog"@);
        }
        return resp;
    }
    if let Some(resp) = hit(title, body, "(skip log)") {
        proof {
            assert(ignore_patterns()[3] == "(skip log)"@);
        }
        return resp;
    }
    if let Some(resp) = hit(title, body, "(ignore log)") {
        proof {
            assert(ignore_patterns()[4] == "(ignore log)"@);
        }
        return resp;
    }
    if let Some(resp) = hit(title, body, "!log") {
        proof {
            assert(ignore_patterns()[5] == "!log"@);
        }
        return resp;
    }
    if let Some(resp) = hit(title, body, "(skip chglog)") {
        proof {
            assert(ignore_patterns()[6] == "(skip chglog)"@);
        }
        return resp;
    }
    if let Some(resp) = hit(title, body, "(ignore chglog)") {
        proof {
            assert(ignore_patterns()[7] == "(ignore chglog)"@);
        }
        return resp;
    }
    if let Some(resp) = hit(title, body, "!chglog") {
        proof {
            assert(ignore_patterns()[8] == "!chglog"@);
        }
        return resp;
    }
    if let Some(resp) = hit(title, body, "(skip notes)") {
        proof {
            assert(ignore_patterns()[9] == "(skip notes)"@);
        }
        return resp;
    }
    if let Some(resp) = hit(title, body, "(ignore notes)") {
        proof {
            assert(ignore_patterns()[10] == "(ignore notes)"@);
        }
        return resp;
    }
    if let Some(resp) = hit(title, body, "!notes") {
        proof {
            assert(ignore_patterns()[11] == "!notes"@);
        }
        return resp;
    }
    proof {
        assert(!spec_marker_hit(raw.title@, raw.body@)) by {
            assert forall|i: int| 0 <= i < ignore_patterns().len() implies !(contains_seq(
                raw.title@,
                #[trigger] ignore_patterns()[i],
            ) || contains_seq(raw.body@, ignore_patterns()[i])) by {
                if i == 0 {
                } else if i == 1 {
                } else if i == 2 {
                } else if i == 3 {
                } else if i == 4 {
                } else if i == 5 {
                } else if i == 6 {
                } else if i == 7 {
                } else if i == 8 {
                } else if i == 9 {
                } else if i == 10 {
                } else {
                }
            }
        }
    }
    Response::No
}

/// The commit the note is built from, after section resolution.
pub open spec fn spec_resolved_commit(
    map: Seq<(Seq<char>, Seq<Seq<char>>)>,
    title: Seq<char>,
    body: Seq<char>,
    strict: bool,
    exclude_unidentified: bool,
) -> Option<CommitV> {
    match p_commit(title) {
        Some(cm) => match spec_map_section(map, cm.section) {
            Some(sec) => Some(CommitV { section: sec, scope: cm.scope, message: cm.message }),
            None => if strict {
                None
            } else {
                match spec_find_section(map, lower_of(title), lower_of(body)) {
                    Some(sec) => Some(
                        CommitV { section: sec, scope: cm.scope, message: cm.message },
                    ),
                    None => if exclude_unidentified {
                        None
                    } else {
                        Some(
                            CommitV {
                                section: "Unidentified"@,
                                scope: cm.scope,
                                message: cm.message,
                            },
                        )
                    },
                }
            },
        },
        None => if strict {
            None
        } else {
            match spec_find_section(map, lower_of(title), lower_of(body)) {
                Some(sec) => Some(CommitV { section: sec, scope: None, message: title }),
                None => if exclude_unidentified {
                    None
                } else {
                    Some(CommitV { section: "Unidentified"@, scope: None, message: title })
                },
            }
        },
    }
}

/// The note message with its pull-request credits appended.
pub open spec fn spec_decorated_message(
    base: Seq<char>,
    pr: RelatedPrV,
    omit_pr_link: bool,
    omit_thanks: bool,
) -> Seq<char> {
    let m1 = if !omit_pr_link {
        base + " in ["@ + pr.pr_id + "]("@ + pr.url + ")"@
    } else {
        base
    };
    if !omit_thanks && pr.author is Some && pr.author_link is Some {
        m1 + " by [@"@ + pr.author->0 + "]("@ + pr.author_link->0 + ")"@
    } else {
        m1
    }
}

/// What one commit contributes: the section title and the note, or nothing
/// when the commit is ignored, rejected, or excluded.
pub open spec fn spec_release_note(
    map: Seq<(Seq<char>, Seq<Seq<char>>)>,
    files: Seq<Seq<char>>,
    path: Seq<char>,
    title: Seq<char>,
    body: Seq<char>,
    pr: Option<RelatedPrV>,
    strict: bool,
    exclude_unidentified: bool,
    exclude_not_pr: bool,
    omit_pr_link: bool,
    omit_thanks: bool,
) -> Option<(Seq<char>, NoteV)> {
    if spec_ignored(files, path, title, body) {
        None
    } else {
        match spec_resolved_commit(map, title, body, strict, exclude_unidentified) {
            None => None,
            Some(cm) => match pr {
                Some(p) => if !p.is_pr && exclude_not_pr {
                    None
                } else {
                    Some(
                        (
                            cm.section,
                            NoteV {
                                scope: cm.scope,
                                message: spec_decorated_message(
                                    cm.message,
                                    p,
                                    omit_pr_link,
                                    omit_thanks,
                                ),
                                context: Seq::empty(),
                            },
                        ),
                    )
                },
                None => if exclude_not_pr {
                    None
                } else {
                    Some(
                        (
                            cm.section,
                            NoteV { scope: cm.scope, message: cm.message, context: Seq::empty() },
                        ),
                    )
                },
            },
        }
    }
}

/// Build the release note of one commit: decide its section, decorate its
/// message with the pull-request link and credits, and hand both back; a
/// commit that is ignored, unreadable under strict parsing, unidentified
/// while exclusion is on, or without an upstream pull request while those
/// are excluded, is reported with a reason instead.
pub fn get_release_note(
    raw_commit: &RawCommit,
    related_pr: Option<&RelatedPr>,
    changelog_path: &str,
    map: &MapMessageToSection,
    options: &Generate,
) -> (r: Result<(String, ReleaseSectionNote), String>)
    ensures
        ({
            let strict = options.parsing is Strict;
            let sp = spec_release_note(
                map@,
                raw_commit.list_files.deep_view(),
                changelog_path@,
                raw_commit.title@,
                raw_commit.body@,
                match related_pr {
                    Some(p) => Some(p@),
                    None => None,
                },
                strict,
                options.exclude_unidentified,
                options.exclude_not_pr,
                options.omit_pr_link,
                options.omit_thanks,
            );
            &&& (r is Ok <==> sp is Some)
            &&& (r matches Ok(p) ==> p.0@ == (sp->0).0 && p.1@ == (sp->0).1)
        }),
{
    proof {
        reveal_strlit("Unidentified");
    }
    let response = commit_should_be_ignored(raw_commit, changelog_path);
    if response.bool() {
        let mut msg = crate::version::copy_str("Ignoring commit. ");
        match response {
            Response::Yes { reason } => {
                msg.append(reason.as_str());
            },
            Response::No => {},
        }
        return Err(msg);
    }
    let strict = match options.parsing {
        CommitMessageParsing::Strict => true,
        CommitMessageParsing::Smart => false,
    };
    let commit: FormattedCommitParts = match parse_commit(raw_commit.title.as_str()) {
        Ok(cm) => {
            match map.map_section(cm.section.as_str()) {
                Some(section) => FormattedCommitParts {
                    section,
                    scope: cm.scope,
                    message: cm.message,
                },
                None => {
                    if strict {
                        return Err(
                            crate::version::copy_str(
                                "no corresponding commit type was found for this commit",
                            ),
                        );
                    }
                    match map.try_find_section(
                        raw_commit.title.as_str(),
                        raw_commit.body.as_str(),
                    ) {
                        Some(section) => FormattedCommitParts {
                            section,
                            scope: cm.scope,
                            message: cm.message,
                        },
                        None => {
                            if options.exclude_unidentified {
                                return Err(
                                    crate::version::copy_str("Unidentified commit type"),
                                );
                            }
                            FormattedCommitParts {
                                section: crate::version::copy_str("Unidentified"),
                                scope: cm.scope,
                                message: cm.message,
                            }
                        },
                    }
                },
            }
        },
        Err(_) => {
            if strict {
                return Err(crate::version::copy_str("invalid commit syntax"));
            }
            let section = match map.try_find_section(
                raw_commit.title.as_str(),
                raw_commit.body.as_str(),
            ) {
                Some(section) => section,
                None => {
                    if options.exclude_unidentified {
                        return Err(crate::version::copy_str("Unidentified commit type"));
                    }
                    crate::version::copy_str("Unidentified")
                },
            };
            FormattedCommitParts {
                section,
                scope: None,
                message: raw_commit.title.clone(),
            }
        },
    };
    let mut message = commit.message;
    match related_pr {
        Some(pr) => {
            if !pr.is_pr && options.exclude_not_pr {
                return Err(crate::version::copy_str("No upstream pr was found"));
            }
            if !options.omit_pr_link {
                message.append(" in [");
                message.append(pr.pr_id.as_str());
                message.append("](");
                message.append(pr.url.as_str());
                message.append(")");
            }
            if !options.omit_thanks {
                match (&pr.author, &pr.author_link) {
                    (Some(author), Some(author_link)) => {
                        message.append(" by [@");
                        message.append(author.as_str());
                        message.append("](");
                        message.append(author_link.as_str());
                        message.append(")");
                    },
                    _ => {},
                }
            }
        },
        None => {
            if options.exclude_not_pr {
                return Err(crate::version::copy_str("no upstream pr was found"));
            }
        },
    }
    let note = ReleaseSectionNote { scope: commit.scope, message, context: Vec::new() };
    proof {
        let sp = spec_release_note(
            map@,
            raw_commit.list_files.deep_view(),
            changelog_path@,
            raw_commit.title@,
            raw_commit.body@,
            match related_pr {
                Some(p) => Some(p@),
                None => None,
            },
            strict,
            options.exclude_unidentified,
            options.exclude_not_pr,
            options.omit_pr_link,
            options.omit_thanks,
        );
        assert(sp is Some);
        assert(note@.context =~= Seq::<Seq<char>>::empty());
        assert(note@.message =~= (sp->0).1.message);
        assert(note@ =~= (sp->0).1);
    }
    Ok((commit.section, note))
}

/// The parts of a commit while its note is being built.
struct FormattedCommitParts {
    section: String,
    scope: Option<String>,
    message: String,
}

/// Stage one note: the section titled like `section_title` inside the
/// staging release takes it at the end, a fresh section being created when
/// none is titled so. Nothing is deduplicated here; only sanitizing does
/// that.
pub fn insert_release_note(
    unreleased: &mut Release,
    section_title: String,
    release_note: ReleaseSectionNote,
)
    ensures
        final(unreleased)@ == (ReleaseV {
            sections: merge_one_section(
                old(unreleased)@.sections,
                SectionV { title: section_title@, notes: seq![release_note@] },
            ),
            ..old(unreleased)@
        }),
{
    let ghost m = unreleased@.sections;
    let ghost nv = release_note@;
    match crate::fmt::find_title_vec(&unreleased.note_sections, section_title.as_str()) {
        Some(j) => {
            let mut sec = unreleased.note_sections.remove(j);
            sec.notes.push(release_note);
            proof {
                assert(sec@ =~= (SectionV {
                    title: m[j as int].title,
                    notes: m[j as int].notes + seq![nv],
                }));
            }
            unreleased.note_sections.insert(j, sec);
            proof {
                assert(unreleased@.sections =~= m.update(
                    j as int,
                    SectionV { title: m[j as int].title, notes: m[j as int].notes + seq![nv] },
                ));
                assert(unreleased@ =~= (ReleaseV {
                    sections: merge_one_section(
                        m,
                        SectionV { title: section_title@, notes: seq![nv] },
                    ),
                    ..old(unreleased)@
                }));
            }
        },
        None => {
            let mut notes: Vec<ReleaseSectionNote> = Vec::new();
            notes.push(release_note);
            let sec = ReleaseSection { title: section_title, notes };
            proof {
                assert(sec@.notes =~= seq![nv]);
            }
            unreleased.note_sections.push(sec);
            proof {
                assert(unreleased@.sections =~= m.push(sec@));
                assert(unreleased@ =~= (ReleaseV {
                    sections: merge_one_section(m, sec@),
                    ..old(unreleased)@
                }));
            }
        },
    }
}

} // verus!
