//! The document model: the entity graph a changelog text is read into, and
//! its well-formedness rules. Section lists and the stored-release list are
//! insertion-ordered containers with unique keys, kept as plain vectors with
//! the key rules stated as invariants.

use vstd::prelude::*;

use crate::text::str_eq;
use crate::version::{Version, VersionV, version_lt};

verus! {

/// Ghost form of one note of a section.
#[verifier::ext_equal]
pub struct NoteV {
    pub scope: Option<Seq<char>>,
    pub message: Seq<char>,
    pub context: Seq<Seq<char>>,
}

/// Ghost form of one section of a release.
#[verifier::ext_equal]
pub struct SectionV {
    pub title: Seq<char>,
    pub notes: Seq<NoteV>,
}

/// Ghost form of a release title line.
#[verifier::ext_equal]
pub struct TitleV {
    pub version: Seq<char>,
    pub release_link: Option<Seq<char>>,
    pub title: Option<Seq<char>>,
}

/// Ghost form of one release.
#[verifier::ext_equal]
pub struct ReleaseV {
    pub title: TitleV,
    pub header: Option<Seq<char>>,
    pub sections: Seq<SectionV>,
    pub footer: Option<Seq<char>>,
}

/// Ghost form of a reference-style footer link.
#[verifier::ext_equal]
pub struct LinkV {
    pub text: Seq<char>,
    pub link: Seq<char>,
}

/// Ghost form of one stored release with its version key.
#[verifier::ext_equal]
pub struct EntryV {
    pub version: VersionV,
    pub release: ReleaseV,
}

/// Ghost form of a whole changelog.
#[verifier::ext_equal]
pub struct ChangeLogV {
    pub header: Option<Seq<char>>,
    pub unreleased: Option<ReleaseV>,
    pub releases: Seq<EntryV>,
    pub links: Seq<LinkV>,
}

/// The text of an optional `String`.
pub open spec fn view_opt_str(o: Option<String>) -> Option<Seq<char>> {
    match o {
        Some(s) => Some(s@),
        None => None,
    }
}

/// One note: an optional scope, the message body, and the indented
/// continuation lines that belong to it, preserved in order.
#[derive(Debug, Clone, PartialEq, Eq)]
pub struct ReleaseSectionNote {
    pub scope: Option<String>,
    pub message: String,
    pub context: Vec<String>,
}

impl View for ReleaseSectionNote {
    type V = NoteV;

    open spec fn view(&self) -> NoteV {
        NoteV {
            scope: view_opt_str(self.scope),
            message: self.message@,
            context: self.context.deep_view(),
        }
    }
}

/// One titled section of a release, with its notes in order.
#[derive(Debug, Clone, PartialEq, Eq)]
pub struct ReleaseSection {
    pub title: String,
    pub notes: Vec<ReleaseSectionNote>,
}

impl View for ReleaseSection {
    type V = SectionV;

    open spec fn view(&self) -> SectionV {
        SectionV {
            title: self.title@,
            notes: self.notes@.map_values(|n: ReleaseSectionNote| n@),
        }
    }
}

/// The title line of a release.
#[derive(Debug, Clone, PartialEq, Eq)]
pub struct ReleaseTitle {
    pub version: String,
    pub release_link: Option<String>,
    pub title: Option<String>,
}

impl View for ReleaseTitle {
    type V = TitleV;

    open spec fn view(&self) -> TitleV {
        TitleV {
            version: self.version@,
            release_link: view_opt_str(self.release_link),
            title: view_opt_str(self.title),
        }
    }
}

/// One release: its title, the free text around it, and its sections in
/// order of first appearance, titles unique.
#[derive(Debug, Clone, PartialEq, Eq)]
pub struct Release {
    pub title: ReleaseTitle,
    pub header: Option<String>,
    pub note_sections: Vec<ReleaseSection>,
    pub footer: Option<String>,
}

impl View for Release {
    type V = ReleaseV;

    open spec fn view(&self) -> ReleaseV {
        ReleaseV {
            title: self.title@,
            header: view_opt_str(self.header),
            sections: self.note_sections@.map_values(|s: ReleaseSection| s@),
            footer: view_opt_str(self.footer),
        }
    }
}

/// A reference-style link at the end of the document.
#[derive(Debug, Clone, PartialEq, Eq)]
pub struct FooterLink {
    pub text: String,
    pub link: String,
}

impl View for FooterLink {
    type V = LinkV;

    open spec fn view(&self) -> LinkV {
        LinkV { text: self.text@, link: self.link@ }
    }
}

/// The footer links of a document.
#[derive(Debug, Clone, PartialEq, Eq)]
pub struct FooterLinks {
    pub links: Vec<FooterLink>,
}

impl View for FooterLinks {
    type V = Seq<LinkV>;

    open spec fn view(&self) -> Seq<LinkV> {
        self.links@.map_values(|l: FooterLink| l@)
    }
}

/// One stored release with the version it is keyed by.
#[derive(Debug, Clone, PartialEq, Eq)]
pub struct ReleaseEntry {
    pub version: Version,
    pub release: Release,
}

impl View for ReleaseEntry {
    type V = EntryV;

    open spec fn view(&self) -> EntryV {
        EntryV { version: self.version@, release: self.release@ }
    }
}

/// The root aggregate: optional preamble, the staging `unreleased` release,
/// the stored releases in ascending version order, and the footer links.
#[derive(Debug, Clone, PartialEq, Eq)]
pub struct ChangeLog {
    pub header: Option<String>,
    pub unreleased: Option<Release>,
    pub releases: Vec<ReleaseEntry>,
    pub footer_links: FooterLinks,
}

impl View for ChangeLog {
    type V = ChangeLogV;

    open spec fn view(&self) -> ChangeLogV {
        ChangeLogV {
            header: view_opt_str(self.header),
            unreleased: match self.unreleased {
                Some(u) => Some(u@),
                None => None,
            },
            releases: self.releases@.map_values(|e: ReleaseEntry| e@),
            links: self.footer_links@,
        }
    }
}

/// Section titles are pairwise distinct.
pub open spec fn wf_sections(ss: Seq<SectionV>) -> bool {
    forall|i: int, j: int| 0 <= i < j < ss.len() ==> ss[i].title != ss[j].title
}

/// A release keeps its section keys unique.
pub open spec fn wf_release(r: ReleaseV) -> bool {
    wf_sections(r.sections)
}

/// The stored releases are in strictly ascending version-key order; in
/// particular their keys are unique.
pub open spec fn wf_entries(es: Seq<EntryV>) -> bool {
    forall|i: int, j: int| 0 <= i < j < es.len() ==> version_lt(#[trigger] es[i].version, #[trigger] es[j].version)
}

/// The whole document is well formed.
pub open spec fn wf_changelog(c: ChangeLogV) -> bool {
    &&& wf_entries(c.releases)
    &&& (c.unreleased matches Some(u) ==> wf_release(u))
    &&& forall|i: int| 0 <= i < c.releases.len() ==> wf_release(#[trigger] c.releases[i].release)
}

/// An owned copy of an optional text.
pub fn dup_opt_string(o: &Option<String>) -> (r: Option<String>)
    ensures
        view_opt_str(r) == view_opt_str(*o),
{
    match o {
        Some(s) => Some(s.clone()),
        None => None,
    }
}

/// An owned copy of a list of texts.
pub fn dup_string_vec(v: &Vec<String>) -> (r: Vec<String>)
    ensures
        r.deep_view() == v.deep_view(),
{
    let mut out: Vec<String> = Vec::new();
    let mut i: usize = 0;
    while i < v.len()
        invariant
            0 <= i <= v@.len(),
            out@.len() == i,
            forall|k: int| 0 <= k < i ==> out@[k]@ == #[trigger] v@[k]@,
        decreases v@.len() - i,
    {
        out.push(v[i].clone());
        i = i + 1;
    }
    proof {
        assert(out.deep_view() =~= v.deep_view());
    }
    out
}

impl ReleaseSectionNote {
    /// An identical note value.
    pub fn duplicate(&self) -> (r: ReleaseSectionNote)
        ensures
            r@ == self@,
    {
        let r = ReleaseSectionNote {
            scope: dup_opt_string(&self.scope),
            message: self.message.clone(),
            context: dup_string_vec(&self.context),
        };
        proof {
            assert(r@ =~= self@);
        }
        r
    }

    /// The notes are equal as values: same scope, message and context.
    pub fn same_note(&self, other: &ReleaseSectionNote) -> (r: bool)
        ensures
            r == (self@ == other@),
    {
        let scope_eq = match (&self.scope, &other.scope) {
            (Some(a), Some(b)) => str_eq(a.as_str(), b.as_str()),
            (None, None) => true,
            _ => false,
        };
        if !scope_eq {
            return false;
        }
        if !str_eq(self.message.as_str(), other.message.as_str()) {
            return false;
        }
        if self.context.len() != other.context.len() {
            proof {
                assert(self@.context.len() != other@.context.len());
            }
            return false;
        }
        let mut i: usize = 0;
        while i < self.context.len()
            invariant
                0 <= i <= self.context@.len(),
                self.context@.len() == other.context@.len(),
                view_opt_str(self.scope) == view_opt_str(other.scope),
                self.message@ == other.message@,
                forall|k: int|
                    0 <= k < i ==> self.context@[k]@ == #[trigger] other.context@[k]@,
            decreases self.context@.len() - i,
        {
            if !str_eq(self.context[i].as_str(), other.context[i].as_str()) {
                proof {
                    assert(self@.context[i as int] != other@.context[i as int]);
                }
                return false;
            }
            i = i + 1;
        }
        proof {
            assert(self@.context =~= other@.context);
            assert(self@ =~= other@);
        }
        true
    }
}

impl ReleaseSection {
    /// An identical section value.
    pub fn duplicate(&self) -> (r: ReleaseSection)
        ensures
            r@ == self@,
    {
        let mut notes: Vec<ReleaseSectionNote> = Vec::new();
        let mut i: usize = 0;
        while i < self.notes.len()
            invariant
                0 <= i <= self.notes@.len(),
                notes@.len() == i,
                forall|k: int| 0 <= k < i ==> notes@[k]@ == #[trigger] self.notes@[k]@,
            decreases self.notes@.len() - i,
        {
            notes.push(self.notes[i].duplicate());
            i = i + 1;
        }
        let r = ReleaseSection { title: self.title.clone(), notes };
        proof {
            assert(r@.notes =~= self@.notes);
            assert(r@ =~= self@);
        }
        r
    }
}

impl ReleaseTitle {
    /// An identical title value.
    pub fn duplicate(&self) -> (r: ReleaseTitle)
        ensures
            r@ == self@,
    {
        let r = ReleaseTitle {
            version: self.version.clone(),
            release_link: dup_opt_string(&self.release_link),
            title: dup_opt_string(&self.title),
        };
        proof {
            assert(r@ =~= self@);
        }
        r
    }
}

impl Release {
    /// An identical release value.
    pub fn duplicate(&self) -> (r: Release)
        ensures
            r@ == self@,
    {
        let mut sections: Vec<ReleaseSection> = Vec::new();
        let mut i: usize = 0;
        while i < self.note_sections.len()
            invariant
                0 <= i <= self.note_sections@.len(),
                sections@.len() == i,
                forall|k: int|
                    0 <= k < i ==> sections@[k]@ == #[trigger] self.note_sections@[k]@,
            decreases self.note_sections@.len() - i,
        {
            sections.push(self.note_sections[i].duplicate());
            i = i + 1;
        }
        let r = Release {
            title: self.title.duplicate(),
            header: dup_opt_string(&self.header),
            note_sections: sections,
            footer: dup_opt_string(&self.footer),
        };
        proof {
            assert(r@.sections =~= self@.sections);
            assert(r@ =~= self@);
        }
        r
    }

    /// The version text of the release title.
    pub fn version(&self) -> (r: &str)
        ensures
            r@ == self@.title.version,
    {
        self.title.version.as_str()
    }

    /// The index of the section with the given title, if one is there.
    pub fn section_index(&self, title: &str) -> (r: Option<usize>)
        ensures
            r matches Some(i) ==> i < self.note_sections@.len() && self@.sections[i as int].title
                == title@,
            r is None ==> forall|i: int|
                0 <= i < self@.sections.len() ==> (#[trigger] self@.sections[i]).title != title@,
    {
        let mut i: usize = 0;
        while i < self.note_sections.len()
            invariant
                0 <= i <= self.note_sections@.len(),
                forall|k: int|
                    0 <= k < i ==> (#[trigger] self@.sections[k]).title != title@,
            decreases self.note_sections@.len() - i,
        {
            if str_eq(self.note_sections[i].title.as_str(), title) {
                return Some(i);
            }
            i = i + 1;
        }
        None
    }
}

/// The reserved version label of the staging release.
pub fn unreleased_label() -> (r: String)
    ensures
        r@ == crate::model::spec_unreleased_label(),
{
    proof {
        reveal_strlit("Unreleased");
    }
    crate::version::copy_str("Unreleased")
}

/// The reserved version label of the staging release, as text.
pub open spec fn spec_unreleased_label() -> Seq<char> {
    "Unreleased"@
}

/// The canonical empty staging release: the reserved label, nothing else.
pub open spec fn spec_default_unreleased() -> ReleaseV {
    ReleaseV {
        title: TitleV {
            version: spec_unreleased_label(),
            release_link: None,
            title: None,
        },
        header: None,
        sections: Seq::empty(),
        footer: None,
    }
}

/// Build the canonical empty staging release.
pub fn default_unreleased() -> (r: Release)
    ensures
        r@ == spec_default_unreleased(),
        wf_release(r@),
{
    let r = Release {
        title: ReleaseTitle { version: unreleased_label(), release_link: None, title: None },
        header: None,
        note_sections: Vec::new(),
        footer: None,
    };
    proof {
        assert(r@ =~= spec_default_unreleased());
    }
    r
}

impl ChangeLog {
    /// A fresh changelog: an empty staging release, no stored releases, no
    /// preamble and no footer links.
    pub fn new() -> (r: ChangeLog)
        ensures
            r@ == (ChangeLogV {
                header: None,
                unreleased: Some(spec_default_unreleased()),
                releases: Seq::empty(),
                links: Seq::empty(),
            }),
            wf_changelog(r@),
    {
        let r = ChangeLog {
            header: None,
            unreleased: Some(default_unreleased()),
            releases: Vec::new(),
            footer_links: FooterLinks { links: Vec::new() },
        };
        proof {
            assert(r@ =~= (ChangeLogV {
                header: None,
                unreleased: Some(spec_default_unreleased()),
                releases: Seq::empty(),
                links: Seq::empty(),
            }));
        }
        r
    }
}

impl Default for ChangeLog {
    /// The same document as `ChangeLog::new`.
    fn default() -> (r: ChangeLog)
        ensures
            r@ == (ChangeLogV {
                header: None,
                unreleased: Some(spec_default_unreleased()),
                releases: Seq::empty(),
                links: Seq::empty(),
            }),
            wf_changelog(r@),
    {
        ChangeLog::new()
    }
}

} // verus!
