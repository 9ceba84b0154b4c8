//! The release lifecycle: promoting the staged notes into a new, dated
//! release. The staging release is relabeled to the new version, pre-release
//! builds of the same triple can be folded in, links are attached, and the
//! result is inserted into the version-ordered map, a fresh empty staging
//! release left behind.

use vstd::prelude::*;

use crate::config;
use crate::error::Error;
use crate::fmt::find_title;
use crate::model::{
    ChangeLog, ChangeLogV, EntryV, Release, ReleaseSection, ReleaseV, SectionV, TitleV,
    default_unreleased, spec_default_unreleased,
};
use crate::provider::{spec_diff_link, DiffTags, GitProvider};
use crate::repository::{try_detect_new_version, Repository};
use crate::version::{triple_eq, version_key_eq, version_lt, Version, VersionV};

verus! {

/// Whether a release is stored at this version key.
pub open spec fn has_key(es: Seq<EntryV>, v: VersionV) -> bool {
    exists|i: int| 0 <= i < es.len() && version_key_eq(#[trigger] es[i].version, v)
}

/// The stored releases without the one at this key.
pub open spec fn remove_key(es: Seq<EntryV>, v: VersionV) -> Seq<EntryV>
    decreases es.len(),
{
    if es.len() == 0 {
        Seq::empty()
    } else {
        let rest = remove_key(es.drop_last(), v);
        if version_key_eq(es.last().version, v) {
            rest
        } else {
            rest.push(es.last())
        }
    }
}

/// The stored releases whose triple differs from `v`.
pub open spec fn keep_other_triples(es: Seq<EntryV>, v: VersionV) -> Seq<EntryV>
    decreases es.len(),
{
    if es.len() == 0 {
        Seq::empty()
    } else {
        let rest = keep_other_triples(es.drop_last(), v);
        if triple_eq(es.last().version, v) {
            rest
        } else {
            rest.push(es.last())
        }
    }
}

/// The stored releases sharing the triple of `v`: typically its dev builds.
pub open spec fn take_same_triple(es: Seq<EntryV>, v: VersionV) -> Seq<EntryV>
    decreases es.len(),
{
    if es.len() == 0 {
        Seq::empty()
    } else {
        let rest = take_same_triple(es.drop_last(), v);
        if triple_eq(es.last().version, v) {
            rest.push(es.last())
        } else {
            rest
        }
    }
}

/// Append one incoming section: its notes go to the section already titled
/// like it, or the whole section goes to the end.
pub open spec fn merge_one_section(ss: Seq<SectionV>, sec: SectionV) -> Seq<SectionV> {
    let j = find_title(ss, sec.title, 0);
    if j < ss.len() {
        ss.update(j, SectionV { title: ss[j].title, notes: ss[j].notes + sec.notes })
    } else {
        ss.push(sec)
    }
}

/// Append a run of incoming sections in order.
pub open spec fn merge_sections(ss: Seq<SectionV>, inc: Seq<SectionV>) -> Seq<SectionV>
    decreases inc.len(),
{
    if inc.len() == 0 {
        ss
    } else {
        merge_sections(merge_one_section(ss, inc.first()), inc.drop_first())
    }
}

/// Fold every extracted entry's sections into the promoted release.
pub open spec fn merge_entries(ss: Seq<SectionV>, es: Seq<EntryV>) -> Seq<SectionV>
    decreases es.len(),
{
    if es.len() == 0 {
        ss
    } else {
        merge_entries(merge_sections(ss, es.first().release.sections), es.drop_first())
    }
}

/// The previous version a diff runs from: the one given, else the highest
/// kept release.
pub open spec fn spec_prev_version(kept: Seq<EntryV>, prev_arg: Option<VersionV>) -> Option<
    VersionV,
> {
    match prev_arg {
        Some(p) => Some(p),
        None => if kept.len() > 0 {
            Some(kept.last().version)
        } else {
            None
        },
    }
}

/// The promoted release built from the staging one.
pub open spec fn spec_promoted(
    base: ReleaseV,
    v: VersionV,
    header: Option<Seq<char>>,
    link: Option<Seq<char>>,
    merged: Seq<SectionV>,
    diff_line: Option<Seq<char>>,
) -> ReleaseV {
    ReleaseV {
        title: TitleV {
            version: v.display,
            release_link: match link {
                Some(l) => Some(l),
                None => base.title.release_link,
            },
            title: base.title.title,
        },
        header: match (header, base.header) {
            (Some(h), Some(b)) => Some(h + "\n"@ + b),
            (Some(h), None) => Some(h),
            (None, b) => b,
        },
        sections: merged,
        footer: match (base.footer, diff_line) {
            (Some(f), Some(d)) => Some(f + "\n\n"@ + d),
            (None, Some(d)) => Some(d),
            (f, None) => f,
        },
    }
}

/// What a successful promotion does to the whole document.
pub open spec fn spec_promote(
    c: ChangeLogV,
    v: VersionV,
    force: bool,
    header: Option<Seq<char>>,
    link: Option<Seq<char>>,
    merge: bool,
    diff_line: Option<Seq<char>>,
) -> ChangeLogV {
    let cleared = if has_key(c.releases, v) && force {
        remove_key(c.releases, v)
    } else {
        c.releases
    };
    let kept = if merge {
        keep_other_triples(cleared, v)
    } else {
        cleared
    };
    let extracted = if merge {
        take_same_triple(cleared, v)
    } else {
        Seq::empty()
    };
    let base = crate::utils::spec_unreleased_or(c.unreleased);
    let merged = merge_entries(base.sections, extracted);
    let promoted = spec_promoted(base, v, header, link, merged, diff_line);
    ChangeLogV {
        header: c.header,
        unreleased: Some(spec_default_unreleased()),
        releases: crate::de::insert_entry(kept, v, promoted),
        links: c.links,
    }
}

/// The diff footer line for a link.
pub open spec fn spec_diff_line(link: Seq<char>) -> Seq<char> {
    "Full Changelog: "@ + link
}

/// Whether a promotion appends a diff line, and which.
pub open spec fn spec_promote_diff(
    kept: Seq<EntryV>,
    prev_arg: Option<VersionV>,
    v: VersionV,
    omit_diff: bool,
    github: bool,
    repo: Option<Seq<char>>,
) -> Option<Seq<char>> {
    if !omit_diff && github && repo is Some {
        Some(
            spec_diff_line(
                spec_diff_link(
                    repo->0,
                    match spec_prev_version(kept, prev_arg) {
                        Some(p) => Some(p.display),
                        None => None,
                    },
                    v.display,
                ),
            ),
        )
    } else {
        None
    }
}

/// The stored entries without the entry at key `v`.
fn remove_key_vec(es: &Vec<crate::model::ReleaseEntry>, v: &Version) -> (r: Vec<
    crate::model::ReleaseEntry,
>)
    ensures
        r@.map_values(|e: crate::model::ReleaseEntry| e@) == remove_key(
            es@.map_values(|e: crate::model::ReleaseEntry| e@),
            v@,
        ),
{
    let ghost m = es@.map_values(|e: crate::model::ReleaseEntry| e@);
    let mut out: Vec<crate::model::ReleaseEntry> = Vec::new();
    let mut i: usize = 0;
    proof {
        assert(out@.map_values(|e: crate::model::ReleaseEntry| e@) =~= remove_key(
            m.take(0),
            v@,
        ));
    }
    while i < es.len()
        invariant
            0 <= i <= es@.len(),
            m == es@.map_values(|e: crate::model::ReleaseEntry| e@),
            m.len() == es@.len(),
            out@.map_values(|e: crate::model::ReleaseEntry| e@) == remove_key(
                m.take(i as int),
                v@,
            ),
        decreases es@.len() - i,
    {
        proof {
            assert(m.take(i + 1).drop_last() =~= m.take(i as int));
            assert(m.take(i + 1).last() == m[i as int]);
            assert(m[i as int] == es@[i as int]@);
        }
        if !es[i].version.key_equal(v) {
            let ghost prev = out@.map_values(|e: crate::model::ReleaseEntry| e@);
            let entry = crate::model::ReleaseEntry {
                version: es[i].version.duplicate(),
                release: es[i].release.duplicate(),
            };
            proof {
                assert(entry@ =~= m[i as int]);
            }
            out.push(entry);
            proof {
                assert(out@.map_values(|e: crate::model::ReleaseEntry| e@) =~= prev.push(
                    m[i as int],
                ));
            }
        }
        i = i + 1;
    }
    proof {
        assert(m.take(i as int) =~= m);
    }
    out
}

/// Split the stored entries into those keeping another triple and those
/// sharing the triple of `v`.
fn partition_triple(es: &Vec<crate::model::ReleaseEntry>, v: &Version) -> (r: (
    Vec<crate::model::ReleaseEntry>,
    Vec<crate::model::ReleaseEntry>,
))
    ensures
        r.0@.map_values(|e: crate::model::ReleaseEntry| e@) == keep_other_triples(
            es@.map_values(|e: crate::model::ReleaseEntry| e@),
            v@,
        ),
        r.1@.map_values(|e: crate::model::ReleaseEntry| e@) == take_same_triple(
            es@.map_values(|e: crate::model::ReleaseEntry| e@),
            v@,
        ),
{
    let ghost m = es@.map_values(|e: crate::model::ReleaseEntry| e@);
    let mut kept: Vec<crate::model::ReleaseEntry> = Vec::new();
    let mut taken: Vec<crate::model::ReleaseEntry> = Vec::new();
    let mut i: usize = 0;
    proof {
        assert(kept@.map_values(|e: crate::model::ReleaseEntry| e@) =~= keep_other_triples(
            m.take(0),
            v@,
        ));
        assert(taken@.map_values(|e: crate::model::ReleaseEntry| e@) =~= take_same_triple(
            m.take(0),
            v@,
        ));
    }
    while i < es.len()
        invariant
            0 <= i <= es@.len(),
            m == es@.map_values(|e: crate::model::ReleaseEntry| e@),
            m.len() == es@.len(),
            kept@.map_values(|e: crate::model::ReleaseEntry| e@) == keep_other_triples(
                m.take(i as int),
                v@,
            ),
            taken@.map_values(|e: crate::model::ReleaseEntry| e@) == take_same_triple(
                m.take(i as int),
                v@,
            ),
        decreases es@.len() - i,
    {
        proof {
            assert(m.take(i + 1).drop_last() =~= m.take(i as int));
            assert(m.take(i + 1).last() == m[i as int]);
            assert(m[i as int] == es@[i as int]@);
        }
        let entry = crate::model::ReleaseEntry {
            version: es[i].version.duplicate(),
            release: es[i].release.duplicate(),
        };
        proof {
            assert(entry@ =~= m[i as int]);
        }
        if es[i].version.triple_equal(v) {
            let ghost prev = taken@.map_values(|e: crate::model::ReleaseEntry| e@);
            taken.push(entry);
            proof {
                assert(taken@.map_values(|e: crate::model::ReleaseEntry| e@) =~= prev.push(
                    m[i as int],
                ));
            }
        } else {
            let ghost prev = kept@.map_values(|e: crate::model::ReleaseEntry| e@);
            kept.push(entry);
            proof {
                assert(kept@.map_values(|e: crate::model::ReleaseEntry| e@) =~= prev.push(
                    m[i as int],
                ));
            }
        }
        i = i + 1;
    }
    proof {
        assert(m.take(i as int) =~= m);
    }
    (kept, taken)
}

/// Append one incoming section to the promoted sections.
fn merge_one_section_vec(ss: Vec<ReleaseSection>, sec: &ReleaseSection) -> (r: Vec<
    ReleaseSection,
>)
    ensures
        r@.map_values(|x: ReleaseSection| x@) == merge_one_section(
            ss@.map_values(|x: ReleaseSection| x@),
            sec@,
        ),
{
    let ghost m = ss@.map_values(|x: ReleaseSection| x@);
    let mut ss = ss;
    match crate::fmt::find_title_vec(&ss, sec.title.as_str()) {
        Some(j) => {
            let mut merged = ss.remove(j);
            let mut k: usize = 0;
            let ghost base = merged@.notes;
            let ghost mtitle = merged@.title;
            let ghost inc = sec@.notes;
            proof {
                assert(base + inc.take(0) =~= base);
            }
            while k < sec.notes.len()
                invariant
                    0 <= k <= sec.notes@.len(),
                    inc == sec@.notes,
                    inc.len() == sec.notes@.len(),
                    merged@.title == mtitle,
                    merged@.notes == base + inc.take(k as int),
                decreases sec.notes@.len() - k,
            {
                let ghost prev = merged@.notes;
                merged.notes.push(sec.notes[k].duplicate());
                proof {
                    assert(inc[k as int] == sec.notes@[k as int]@);
                    assert(merged@.notes =~= prev.push(inc[k as int]));
                    assert(prev.push(inc[k as int]) =~= base + inc.take(k + 1));
                }
                k = k + 1;
            }
            proof {
                assert(inc.take(k as int) =~= inc);
            }
            ss.insert(j, merged);
            proof {
                assert(ss@.map_values(|x: ReleaseSection| x@) =~= m.update(
                    j as int,
                    SectionV { title: m[j as int].title, notes: m[j as int].notes + sec@.notes },
                ));
            }
            ss
        },
        None => {
            let ghost sv = sec@;
            ss.push(sec.duplicate());
            proof {
                assert(ss@.map_values(|x: ReleaseSection| x@) =~= m.push(sv));
            }
            ss
        },
    }
}

/// Fold every extracted entry's sections into the promoted release.
fn merge_entries_vec(
    ss: Vec<ReleaseSection>,
    extracted: &Vec<crate::model::ReleaseEntry>,
) -> (r: Vec<ReleaseSection>)
    ensures
        r@.map_values(|x: ReleaseSection| x@) == merge_entries(
            ss@.map_values(|x: ReleaseSection| x@),
            extracted@.map_values(|e: crate::model::ReleaseEntry| e@),
        ),
{
    let ghost em = extracted@.map_values(|e: crate::model::ReleaseEntry| e@);
    let mut ss = ss;
    let ghost total = merge_entries(ss@.map_values(|x: ReleaseSection| x@), em);
    let mut i: usize = 0;
    proof {
        assert(em.skip(0) =~= em);
    }
    while i < extracted.len()
        invariant
            0 <= i <= extracted@.len(),
            em == extracted@.map_values(|e: crate::model::ReleaseEntry| e@),
            em.len() == extracted@.len(),
            merge_entries(ss@.map_values(|x: ReleaseSection| x@), em.skip(i as int)) == total,
        decreases extracted@.len() - i,
    {
        proof {
            assert(em.skip(i as int).first() == em[i as int]);
            assert(em.skip(i as int).drop_first() =~= em.skip(i + 1));
            assert(em[i as int] == extracted@[i as int]@);
        }
        let entry_sections = &extracted[i].release.note_sections;
        let mut j: usize = 0;
        let ghost secs = extracted@[i as int].release@.sections;
        let ghost sec_target = merge_sections(
            ss@.map_values(|x: ReleaseSection| x@),
            secs,
        );
        let ghost outer_target = merge_entries(
            ss@.map_values(|x: ReleaseSection| x@),
            em.skip(i as int),
        );
        proof {
            assert(secs.skip(0) =~= secs);
        }
        while j < entry_sections.len()
            invariant
                0 <= j <= entry_sections@.len(),
                secs == extracted@[i as int].release@.sections,
                secs.len() == entry_sections@.len(),
                entry_sections@ == extracted@[i as int].release.note_sections@,
                merge_sections(ss@.map_values(|x: ReleaseSection| x@), secs.skip(j as int))
                    == sec_target,
            decreases entry_sections@.len() - j,
        {
            proof {
                assert(secs.skip(j as int).first() == secs[j as int]);
                assert(secs.skip(j as int).drop_first() =~= secs.skip(j + 1));
                assert(secs[j as int] == entry_sections@[j as int]@);
            }
            ss = merge_one_section_vec(ss, &entry_sections[j]);
            j = j + 1;
        }
        proof {
            assert(secs.skip(j as int) =~= Seq::<SectionV>::empty());
            assert(ss@.map_values(|x: ReleaseSection| x@) == sec_target);
            assert(merge_entries(sec_target, em.skip(i + 1)) == outer_target);
        }
        i = i + 1;
    }
    proof {
        assert(em.skip(i as int) =~= Seq::<EntryV>::empty());
    }
    ss
}

/// Whether a release is stored at this key.
fn has_key_vec(es: &Vec<crate::model::ReleaseEntry>, v: &Version) -> (r: bool)
    ensures
        r == has_key(es@.map_values(|e: crate::model::ReleaseEntry| e@), v@),
{
    let ghost m = es@.map_values(|e: crate::model::ReleaseEntry| e@);
    let mut i: usize = 0;
    while i < es.len()
        invariant
            0 <= i <= es@.len(),
            m == es@.map_values(|e: crate::model::ReleaseEntry| e@),
            m.len() == es@.len(),
            forall|k: int| 0 <= k < i ==> !version_key_eq(#[trigger] m[k].version, v@),
        decreases es@.len() - i,
    {
        proof {
            assert(m[i as int] == es@[i as int]@);
        }
        if es[i].version.key_equal(v) {
            proof {
                assert(version_key_eq(m[i as int].version, v@));
            }
            return true;
        }
        i = i + 1;
    }
    proof {
        assert(forall|k: int| 0 <= k < m.len() ==> !version_key_eq(#[trigger] m[k].version, v@));
    }
    false
}

/// An owned copy of the stored entries.
fn dup_entries(es: &Vec<crate::model::ReleaseEntry>) -> (r: Vec<crate::model::ReleaseEntry>)
    ensures
        r@.map_values(|e: crate::model::ReleaseEntry| e@) == es@.map_values(
            |e: crate::model::ReleaseEntry| e@,
        ),
{
    let ghost m = es@.map_values(|e: crate::model::ReleaseEntry| e@);
    let mut out: Vec<crate::model::ReleaseEntry> = Vec::new();
    let mut i: usize = 0;
    proof {
        assert(out@.map_values(|e: crate::model::ReleaseEntry| e@) =~= m.take(0));
    }
    while i < es.len()
        invariant
            0 <= i <= es@.len(),
            m == es@.map_values(|e: crate::model::ReleaseEntry| e@),
            m.len() == es@.len(),
            out@.map_values(|e: crate::model::ReleaseEntry| e@) == m.take(i as int),
        decreases es@.len() - i,
    {
        let ghost prev = out@.map_values(|e: crate::model::ReleaseEntry| e@);
        let entry = crate::model::ReleaseEntry {
            version: es[i].version.duplicate(),
            release: es[i].release.duplicate(),
        };
        proof {
            assert(m[i as int] == es@[i as int]@);
            assert(entry@ =~= m[i as int]);
        }
        out.push(entry);
        proof {
            assert(out@.map_values(|e: crate::model::ReleaseEntry| e@) =~= prev.push(
                m[i as int],
            ));
            assert(prev.push(m[i as int]) =~= m.take(i + 1));
        }
        i = i + 1;
    }
    proof {
        assert(m.take(i as int) =~= m);
    }
    out
}

impl ChangeLog {
    /// Promote the staged notes into a release at `new_version`: the staging
    /// release is relabeled, a release link attached where the provider
    /// builds one, same-triple pre-release builds folded in when asked,
    /// a diff footer line appended, and the result inserted at its version
    /// key, a fresh empty staging release left behind.
    ///
    /// A release already stored at that key is an error unless `force` is
    /// set, in which case it is discarded first; a previous version greater
    /// than the new one is an error. On an error nothing is changed.
    pub fn promote(
        &mut self,
        new_version: &Version,
        force: bool,
        header: &Option<String>,
        provider: &GitProvider,
        repo: &Option<String>,
        merge: bool,
        omit_diff: bool,
        previous_version: Option<Version>,
    ) -> (r: Result<(), Error>)
        ensures
            ({
                let c = old(self)@;
                let v = new_version@;
                let conflict = has_key(c.releases, v) && !force;
                let cleared = if has_key(c.releases, v) && force {
                    remove_key(c.releases, v)
                } else {
                    c.releases
                };
                let kept = if merge {
                    keep_other_triples(cleared, v)
                } else {
                    cleared
                };
                let prev_arg = match previous_version {
                    Some(p) => Some(p@),
                    None => None,
                };
                let prevv = spec_prev_version(kept, prev_arg);
                let bad = match prevv {
                    Some(p) => version_lt(v, p),
                    None => false,
                };
                let github = provider is Github;
                let repo_view = match repo {
                    Some(t) => Some(t@),
                    None => None,
                };
                let link = if github && repo_view is Some {
                    Some(crate::provider::spec_release_link(repo_view->0, v.display))
                } else {
                    None
                };
                let diff = spec_promote_diff(kept, prev_arg, v, omit_diff, github, repo_view);
                let header_view = crate::model::view_opt_str(*header);
                &&& (conflict ==> r is Err && (r->Err_0 matches Error::VersionAlreadyExists {
                    ..
                }) && final(self)@ == c)
                &&& (!conflict && bad ==> r is Err && (r->Err_0
                    matches Error::PreviousVersionGreaterThanNew { .. }) && final(self)@ == c)
                &&& (!conflict && !bad ==> r is Ok && final(self)@ == spec_promote(
                    c,
                    v,
                    force,
                    header_view,
                    link,
                    merge,
                    diff,
                ))
            }),
    {
        let ghost c = self@;
        let ghost v = new_version@;
        let ghost prev_arg0: Option<VersionV> = match &previous_version {
            Some(p) => Some(p@),
            None => None,
        };
        let found = has_key_vec(&self.releases, new_version);
        if found && !force {
            return Err(
                Error::VersionAlreadyExists { version: new_version.display_text() },
            );
        }
        let cleared = if found {
            remove_key_vec(&self.releases, new_version)
        } else {
            dup_entries(&self.releases)
        };
        let (kept, extracted) = if merge {
            partition_triple(&cleared, new_version)
        } else {
            (cleared, Vec::new())
        };
        proof {
            if !merge {
                assert(extracted@.map_values(|e: crate::model::ReleaseEntry| e@) =~= Seq::<
                    EntryV,
                >::empty());
            }
        }
        let prev: Option<Version> = match previous_version {
            Some(p) => Some(p),
            None => {
                if kept.len() == 0 {
                    None
                } else {
                    Some(kept[kept.len() - 1].version.duplicate())
                }
            },
        };
        let diff_tags = match DiffTags::new(new_version.duplicate(), prev) {
            Ok(d) => d,
            Err(e) => {
                return Err(e);
            },
        };
        let link: Option<String> = match repo {
            Some(repo_text) => {
                let tag = new_version.display_text();
                provider.release_link(repo_text.as_str(), tag.as_str())
            },
            None => None,
        };
        let diff_line: Option<String> = if !omit_diff {
            match repo {
                Some(repo_text) => {
                    match provider.diff_link(repo_text.as_str(), &diff_tags) {
                        Some(l) => {
                            let mut line = crate::version::copy_str("Full Changelog: ");
                            line.append(l.as_str());
                            proof {
                                assert(line@ =~= spec_diff_line(l@));
                            }
                            Some(line)
                        },
                        None => None,
                    }
                },
                None => None,
            }
        } else {
            None
        };
        let unrel = self.unreleased.take();
        let base = match unrel {
            Some(u) => u,
            None => default_unreleased(),
        };
        let merged = if merge {
            merge_entries_vec(base.note_sections, &extracted)
        } else {
            base.note_sections
        };
        let new_header: Option<String> = match (header, &base.header) {
            (Some(h), Some(b)) => {
                let mut joined = h.clone();
                joined.append("\n");
                joined.append(b.as_str());
                Some(joined)
            },
            (Some(h), None) => Some(h.clone()),
            (None, _) => dup_opt(&base.header),
        };
        let new_footer: Option<String> = match (&base.footer, &diff_line) {
            (Some(f), Some(d)) => {
                let mut joined = f.clone();
                joined.append("\n\n");
                joined.append(d.as_str());
                Some(joined)
            },
            (None, Some(d)) => Some(d.clone()),
            (f, None) => dup_opt(f),
        };
        let new_link: Option<String> = match (&link, &base.title.release_link) {
            (Some(l), _) => Some(l.clone()),
            (None, b) => dup_opt(b),
        };
        let promoted = Release {
            title: crate::model::ReleaseTitle {
                version: new_version.display_text(),
                release_link: new_link,
                title: dup_opt(&base.title.title),
            },
            header: new_header,
            note_sections: merged,
            footer: new_footer,
        };
        self.releases = crate::de::insert_entry_vec(kept, new_version.duplicate(), promoted);
        self.unreleased = Some(default_unreleased());
        proof {
            let prev_arg = prev_arg0;
            let github = provider is Github;
            let repo_view: Option<Seq<char>> = match repo {
                Some(t) => Some(t@),
                None => None,
            };
            let slink = if github && repo_view is Some {
                Some(crate::provider::spec_release_link(repo_view->0, v.display))
            } else {
                None
            };
            let cleared_v = if has_key(c.releases, v) && force {
                remove_key(c.releases, v)
            } else {
                c.releases
            };
            let kept_v = if merge {
                keep_other_triples(cleared_v, v)
            } else {
                cleared_v
            };
            let sdiff = spec_promote_diff(kept_v, prev_arg, v, omit_diff, github, repo_view);
            let header_view = crate::model::view_opt_str(*header);
            assert(self@ =~= spec_promote(c, v, force, header_view, slink, merge, sdiff));
        }
        Ok(())
    }
}

/// An owned copy of an optional text.
fn dup_opt(o: &Option<String>) -> (r: Option<String>)
    ensures
        crate::model::view_opt_str(r) == crate::model::view_opt_str(*o),
{
    match o {
        Some(s) => Some(s.clone()),
        None => None,
    }
}

/// Whether the workflow folds pre-release builds in at this version.
pub open spec fn spec_release_merge(v: VersionV, options: config::Release) -> bool {
    (options.merge_dev_versions is Yes || options.merge_dev_versions is Auto) && v.pre.len()
        == 0
}

/// The stored releases the workflow keeps beside the promoted one.
pub open spec fn spec_release_kept(c: ChangeLogV, v: VersionV, options: config::Release) -> Seq<
    EntryV,
> {
    let cleared = if has_key(c.releases, v) && options.force {
        remove_key(c.releases, v)
    } else {
        c.releases
    };
    if spec_release_merge(v, options) {
        keep_other_triples(cleared, v)
    } else {
        cleared
    }
}

/// A release is already stored at the new version and overriding was not
/// asked for.
pub open spec fn spec_release_conflict(c: ChangeLogV, v: VersionV, options: config::Release) -> bool {
    has_key(c.releases, v) && !options.force
}

/// The previous version given or implied lies beyond the new one.
pub open spec fn spec_release_prev_bad(c: ChangeLogV, v: VersionV, options: config::Release) -> bool {
    match spec_prev_version(
        spec_release_kept(c, v, options),
        match options.previous_version {
            Some(p) => Some(p@),
            None => None,
        },
    ) {
        Some(p) => version_lt(v, p),
        None => false,
    }
}

/// The document a successful workflow run leaves, before sanitizing.
pub open spec fn spec_release_doc(c: ChangeLogV, v: VersionV, options: config::Release) -> ChangeLogV {
    let github = options.provider is Github;
    let repo_view = match options.repo {
        Some(t) => Some(t@),
        None => None,
    };
    let link = if github && repo_view is Some {
        Some(crate::provider::spec_release_link(repo_view->0, v.display))
    } else {
        None
    };
    let diff = spec_promote_diff(
        spec_release_kept(c, v, options),
        match options.previous_version {
            Some(p) => Some(p@),
            None => None,
        },
        v,
        options.omit_diff,
        github,
        repo_view,
    );
    spec_promote(
        c,
        v,
        options.force,
        crate::model::view_opt_str(options.header),
        link,
        spec_release_merge(v, options),
        diff,
    )
}

/// The text a successful workflow run returns: the promoted document,
/// sanitized with the default options, rendered.
pub open spec fn spec_release_output(c: ChangeLogV, v: VersionV, options: config::Release) -> Seq<
    char,
> {
    crate::ser::fmt_changelog(
        crate::fmt::sanitize_changelog_v(
            spec_release_doc(c, v, options),
            Seq::empty(),
            true,
        ),
        true,
    )
}

/// Run the release workflow at a known version: promote the staged notes
/// into it, sanitize the whole document, and render it. The version text
/// and the rendered document are returned; a stored release at that version
/// (unless forced) or a previous version beyond the new one is an error.
pub fn release_version(changelog: ChangeLog, new_version: &Version, options: &config::Release) -> (out: Result<(String, String), Error>)
    ensures
        out is Ok <==> (!spec_release_conflict(changelog@, new_version@, *options)
            && !spec_release_prev_bad(changelog@, new_version@, *options)),
        spec_release_conflict(changelog@, new_version@, *options) ==> (out->Err_0
            matches Error::VersionAlreadyExists { .. }),
        (!spec_release_conflict(changelog@, new_version@, *options)
            && spec_release_prev_bad(changelog@, new_version@, *options)) ==> (out->Err_0
            matches Error::PreviousVersionGreaterThanNew { .. }),
        out matches Ok(p) ==> p.0@ == new_version@.display && p.1@ == spec_release_output(
            changelog@,
            new_version@,
            *options,
        ),
{
    let ghost c = changelog@;
    let merge = match options.merge_dev_versions {
        config::MergeDevVersions::Yes | config::MergeDevVersions::Auto => !new_version
            .is_prerelease(),
        config::MergeDevVersions::No => false,
    };
    let mut changelog = changelog;
    match changelog.promote(
        new_version,
        options.force,
        &options.header,
        &options.provider,
        &options.repo,
        merge,
        options.omit_diff,
        dup_opt_version(&options.previous_version),
    ) {
        Ok(()) => {},
        Err(e) => {
            return Err(e);
        },
    }
    proof {
        assert(changelog@ == spec_release_doc(c, new_version@, *options));
    }
    let sanitize_options = crate::fmt::Options {
        sort_options: crate::fmt::SortOptions { section_order: Vec::new(), sort_scope: true },
    };
    proof {
        assert(sanitize_options.sort_options.section_order.deep_view() =~= Seq::<
            Seq<char>,
        >::empty());
    }
    changelog.sanitize(&sanitize_options);
    let ser_options = crate::ser::Options {
        release_option: crate::ser::OptionsRelease { serialize_title: true },
    };
    let output = crate::ser::serialize_changelog(&changelog, &ser_options);
    Ok((new_version.display_text(), output))
}

/// Run the release workflow on a document: resolve the new version (the
/// explicit one, else the repository's most recent tag), then promote,
/// sanitize and render through [`release_version`].
pub fn release<R: Repository>(r: &R, changelog: ChangeLog, options: &config::Release) -> (out:
    Result<(String, String), Error>)
    ensures
        options.version matches Some(ver) ==> {
            let c = changelog@;
            let v = ver@;
            &&& (out is Ok <==> (!spec_release_conflict(c, v, *options)
                && !spec_release_prev_bad(c, v, *options)))
            &&& (spec_release_conflict(c, v, *options) ==> (out->Err_0
                matches Error::VersionAlreadyExists { .. }))
            &&& ((!spec_release_conflict(c, v, *options) && spec_release_prev_bad(
                c,
                v,
                *options,
            )) ==> (out->Err_0 matches Error::PreviousVersionGreaterThanNew { .. }))
            &&& (out matches Ok(p) ==> p.0@ == v.display && p.1@ == spec_release_output(
                c,
                v,
                *options,
            ))
        },
{
    let new_version = match try_detect_new_version(r, dup_opt_version(&options.version)) {
        Ok(v) => v,
        Err(e) => {
            return Err(e);
        },
    };
    release_version(changelog, &new_version, options)
}

/// An owned copy of an optional version.
fn dup_opt_version(o: &Option<Version>) -> (r: Option<Version>)
    ensures
        (match (o, r) {
            (Some(a), Some(b)) => a@ == b@,
            (None, None) => true,
            _ => false,
        }),
{
    match o {
        Some(v) => Some(v.duplicate()),
        None => None,
    }
}

impl DiffTags {
    /// Pair the new version with the previous one a diff runs from; a
    /// previous version greater than the new one is a caller error.
    pub fn new(new: Version, prev: Option<Version>) -> (r: Result<DiffTags, Error>)
        ensures
            (match prev {
                Some(p) => version_lt(new@, p@) <==> r is Err,
                None => r is Ok,
            }),
            r matches Ok(d) ==> d.new@ == new@ && (match (prev, d.prev) {
                (Some(p), Some(dp)) => dp@ == p@,
                (None, None) => true,
                _ => false,
            }),
            r is Err ==> r->Err_0 matches Error::PreviousVersionGreaterThanNew { .. },
    {
        match prev {
            Some(p) => {
                if new.key_less(&p) {
                    Err(
                        Error::PreviousVersionGreaterThanNew {
                            prev: p.display_text(),
                            new: new.display_text(),
                        },
                    )
                } else {
                    Ok(DiffTags { prev: Some(p), new })
                }
            },
            None => Ok(DiffTags { prev: None, new }),
        }
    }
}

} // verus!
