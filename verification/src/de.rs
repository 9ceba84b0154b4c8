//! The parser: document text to document model.
//!
//! The grammar is ordered-choice with greedy runs, as a hand-written
//! recursive descent over the characters of the input. Each rule has a
//! specification function from a position to a value and a new position (or
//! to a failure), and the executable parser is proved to return exactly what
//! the specification says. A single construct that cannot be read fails the
//! whole parse; there is no recovery.

use vstd::prelude::*;

use crate::error::Error;
use crate::fmt::find_title;
use crate::model::{
    ChangeLog, ChangeLogV, EntryV, FooterLink, FooterLinks, LinkV, NoteV, Release,
    ReleaseSection, ReleaseSectionNote, ReleaseTitle, ReleaseV, SectionV, TitleV,
    spec_unreleased_label,
};
use crate::text::{occurs_at, scan, trim};
use crate::version::{Version, VersionV, spec_version_parse, version_key_eq, version_lt};

verus! {

/// First newline at or after `i`, or the length.
pub open spec fn nl_scan(s: Seq<char>, i: int) -> int {
    scan(s, i, |c: char| c == '\n')
}

/// End of a greedy run of characters other than newline and `]`.
pub open spec fn ver_scan(s: Seq<char>, i: int) -> int {
    scan(s, i, |c: char| c == '\n' || c == ']')
}

/// End of a greedy run of characters other than newline and `)`.
pub open spec fn link_scan(s: Seq<char>, i: int) -> int {
    scan(s, i, |c: char| c == '\n' || c == ')')
}

/// End of a greedy run of scope characters: anything but blank, backtick,
/// colon and newline.
pub open spec fn scope_scan(s: Seq<char>, i: int) -> int {
    scan(
        s,
        i,
        |c: char| c == ' ' || c == '\t' || c == '\r' || c == '`' || c == ':' || c == '\n',
    )
}

/// End of a greedy run of blanks (space, tab, carriage return, newline).
pub open spec fn space_scan(s: Seq<char>, i: int) -> int {
    scan(s, i, |c: char| !(c == ' ' || c == '\t' || c == '\r' || c == '\n'))
}

/// End of a greedy run of spaces and newlines.
pub open spec fn spaceline_scan(s: Seq<char>, i: int) -> int {
    scan(s, i, |c: char| !(c == ' ' || c == '\n'))
}

/// Read a release title line at `i`: `## [`, a version text, `]`, an
/// optional `(link)`, an optional ` - title`. The title text excludes `]`,
/// a known quirk of the grammar kept for compatibility.
pub open spec fn p_title(s: Seq<char>, i: int) -> Option<(TitleV, int)> {
    if !occurs_at(s, "## ["@, i) {
        None
    } else {
        let v0 = i + 4;
        let ve = ver_scan(s, v0);
        if ve == v0 || ve >= s.len() || s[ve] != ']' {
            None
        } else {
            let p1 = ve + 1;
            let link_res = if p1 < s.len() && s[p1] == '(' {
                let le = link_scan(s, p1 + 1);
                if le > p1 + 1 && le < s.len() && s[le] == ')' {
                    Some((trim(s.subrange(p1 + 1, le)), le + 1))
                } else {
                    None
                }
            } else {
                None
            };
            let p2 = match link_res {
                Some(l) => l.1,
                None => p1,
            };
            let title_res = if occurs_at(s, " - "@, p2) {
                let te = ver_scan(s, p2 + 3);
                if te > p2 + 3 {
                    Some((trim(s.subrange(p2 + 3, te)), te))
                } else {
                    None
                }
            } else {
                None
            };
            let p3 = match title_res {
                Some(t) => t.1,
                None => p2,
            };
            Some(
                (
                    TitleV {
                        version: trim(s.subrange(v0, ve)),
                        release_link: match link_res {
                            Some(l) => Some(l.0),
                            None => None,
                        },
                        title: match title_res {
                            Some(t) => Some(t.0),
                            None => None,
                        },
                    },
                    p3,
                ),
            )
        }
    }
}

/// Read the context lines of a note from `i`: lines led by a space or tab,
/// captured trimmed, each ended by a newline.
pub open spec fn p_context(s: Seq<char>, i: int) -> (Seq<Seq<char>>, int)
    decreases s.len() - i,
{
    if 0 <= i && i < s.len() && (s[i] == ' ' || s[i] == '\t') {
        let ce = nl_scan(s, i + 1);
        if ce > i + 1 && ce < s.len() {
            let rest = p_context(s, ce + 1);
            (seq![trim(s.subrange(i + 1, ce))] + rest.0, rest.1)
        } else {
            (Seq::empty(), i)
        }
    } else {
        (Seq::empty(), i)
    }
}

/// Read one note at `i`: leading blank lines, `- `, an optional scope ended
/// by a colon, the message up to a required newline, then context lines.
pub open spec fn p_note(s: Seq<char>, i: int) -> Option<(NoteV, int)> {
    let j = spaceline_scan(s, i);
    if !occurs_at(s, "- "@, j) {
        None
    } else {
        let p0 = j + 2;
        let se = scope_scan(s, p0);
        let has_scope = se > p0 && se < s.len() && s[se] == ':';
        let p1 = if has_scope {
            se + 1
        } else {
            p0
        };
        let me = nl_scan(s, p1);
        if me == p1 || me >= s.len() {
            None
        } else {
            let rest = p_context(s, me + 1);
            Some(
                (
                    NoteV {
                        scope: if has_scope {
                            Some(trim(s.subrange(p0, se)))
                        } else {
                            None
                        },
                        message: trim(s.subrange(p1, me)),
                        context: rest.0,
                    },
                    rest.1,
                ),
            )
        }
    }
}

/// Read as many notes as match from `i`.
pub open spec fn p_notes(s: Seq<char>, i: int) -> (Seq<NoteV>, int)
    decreases s.len() - i,
{
    match p_note(s, i) {
        Some(n) => if i < n.1 <= s.len() {
            let rest = p_notes(s, n.1);
            (seq![n.0] + rest.0, rest.1)
        } else {
            (Seq::empty(), i)
        },
        None => (Seq::empty(), i),
    }
}

/// Read one section at `i`: blanks, `### `, the title up to a required
/// newline, blanks, then its notes.
pub open spec fn p_section(s: Seq<char>, i: int) -> Option<(SectionV, int)> {
    let j = space_scan(s, i);
    if !occurs_at(s, "### "@, j) {
        None
    } else {
        let t0 = j + 4;
        let te = nl_scan(s, t0);
        if te == t0 || te >= s.len() {
            None
        } else {
            let k = space_scan(s, te + 1);
            let rest = p_notes(s, k);
            Some((SectionV { title: trim(s.subrange(t0, te)), notes: rest.0 }, rest.1))
        }
    }
}

/// Read as many sections as match from `i`.
pub open spec fn p_sections(s: Seq<char>, i: int) -> (Seq<SectionV>, int)
    decreases s.len() - i,
{
    match p_section(s, i) {
        Some(n) => if i < n.1 <= s.len() {
            let rest = p_sections(s, n.1);
            (seq![n.0] + rest.0, rest.1)
        } else {
            (Seq::empty(), i)
        },
        None => (Seq::empty(), i),
    }
}

/// Read one reference link line at `i`: `[`, the label, `]: `, the url up to
/// a required newline.
pub open spec fn p_link(s: Seq<char>, i: int) -> Option<(LinkV, int)> {
    if !(0 <= i && i < s.len() && s[i] == '[') {
        None
    } else {
        let te = ver_scan(s, i + 1);
        if te == i + 1 || te >= s.len() || !occurs_at(s, "]: "@, te) {
            None
        } else {
            let u0 = te + 3;
            let ue = nl_scan(s, u0);
            if ue == u0 || ue >= s.len() {
                None
            } else {
                Some(
                    (
                        LinkV {
                            text: trim(s.subrange(i + 1, te)),
                            link: trim(s.subrange(u0, ue)),
                        },
                        ue + 1,
                    ),
                )
            }
        }
    }
}

/// Read as many reference link lines as match from `i`.
pub open spec fn p_links(s: Seq<char>, i: int) -> (Seq<LinkV>, int)
    decreases s.len() - i,
{
    match p_link(s, i) {
        Some(n) => if i < n.1 <= s.len() {
            let rest = p_links(s, n.1);
            (seq![n.0] + rest.0, rest.1)
        } else {
            (Seq::empty(), i)
        },
        None => (Seq::empty(), i),
    }
}

/// Whether the rest of the input from `i` is exactly a footer-links block:
/// blanks, link lines, blanks, end of input.
pub open spec fn links_match(s: Seq<char>, i: int) -> bool {
    let j = space_scan(s, i);
    let r = p_links(s, j);
    space_scan(s, r.1) == s.len()
}

/// Whether a free-text run must stop at `i`: a release title, a section, or
/// a footer-links block to the end begins here.
pub open spec fn release_stop(s: Seq<char>, i: int) -> bool {
    p_title(s, i) is Some || p_section(s, i) is Some || links_match(s, i)
}

/// The first position at or after `i` where a release's free text stops.
pub open spec fn boundary(s: Seq<char>, i: int) -> int
    decreases s.len() - i,
{
    if i < 0 {
        0
    } else if i >= s.len() {
        s.len() as int
    } else if release_stop(s, i) {
        i
    } else {
        boundary(s, i + 1)
    }
}

/// The first position at or after `i` where a release title matches: the
/// end of the document preamble.
pub open spec fn title_boundary(s: Seq<char>, i: int) -> int
    decreases s.len() - i,
{
    if i < 0 {
        0
    } else if i >= s.len() {
        s.len() as int
    } else if p_title(s, i) is Some {
        i
    } else {
        title_boundary(s, i + 1)
    }
}

/// Insert a parsed section into the ordered unique-titled list: a section
/// with a known title replaces the one standing there; a new title goes to
/// the end.
pub open spec fn upsert_section(acc: Seq<SectionV>, sec: SectionV) -> Seq<SectionV> {
    let j = find_title(acc, sec.title, 0);
    if j < acc.len() {
        acc.update(j, sec)
    } else {
        acc.push(sec)
    }
}

/// The parsed sections of one release folded in order of appearance.
pub open spec fn fold_sections(list: Seq<SectionV>) -> Seq<SectionV>
    decreases list.len(),
{
    if list.len() == 0 {
        Seq::empty()
    } else {
        upsert_section(fold_sections(list.drop_last()), list.last())
    }
}

/// Read one release at `i`: its title line, a free-text header run, its
/// sections, and a free-text footer run.
pub open spec fn p_release(s: Seq<char>, i: int) -> Option<(ReleaseV, int)> {
    match p_title(s, i) {
        None => None,
        Some(t) => {
            let hb = boundary(s, t.1);
            let header_txt = trim(s.subrange(t.1, hb));
            let secs = p_sections(s, hb);
            let fb = boundary(s, secs.1);
            let footer_txt = trim(s.subrange(secs.1, fb));
            Some(
                (
                    ReleaseV {
                        title: t.0,
                        header: if header_txt.len() == 0 {
                            None
                        } else {
                            Some(header_txt)
                        },
                        sections: fold_sections(secs.0),
                        footer: if footer_txt.len() == 0 {
                            None
                        } else {
                            Some(footer_txt)
                        },
                    },
                    fb,
                ),
            )
        },
    }
}

/// Read as many releases as match from `i`.
pub open spec fn p_releases(s: Seq<char>, i: int) -> (Seq<ReleaseV>, int)
    decreases s.len() - i,
{
    match p_release(s, i) {
        Some(n) => if i < n.1 <= s.len() {
            let rest = p_releases(s, n.1);
            (seq![n.0] + rest.0, rest.1)
        } else {
            (Seq::empty(), i)
        },
        None => (Seq::empty(), i),
    }
}

/// Insert a release at its version key, keeping ascending order; a release
/// at a key already stored replaces the one there, the stored key kept.
pub open spec fn insert_entry(es: Seq<EntryV>, v: VersionV, r: ReleaseV) -> Seq<EntryV>
    decreases es.len(),
{
    if es.len() == 0 {
        seq![EntryV { version: v, release: r }]
    } else if version_key_eq(es.last().version, v) {
        es.update(es.len() - 1, EntryV { version: es.last().version, release: r })
    } else if version_lt(es.last().version, v) {
        es.push(EntryV { version: v, release: r })
    } else {
        insert_entry(es.drop_last(), v, r).push(es.last())
    }
}

/// Distribute the parsed releases: one titled with the reserved label goes
/// to the staging slot, the rest into the version-ordered map; a version
/// text that cannot be read fails the parse.
pub open spec fn fold_releases(rs: Seq<ReleaseV>) -> Option<(Option<ReleaseV>, Seq<EntryV>)>
    decreases rs.len(),
{
    if rs.len() == 0 {
        Some((None, Seq::empty()))
    } else {
        match fold_releases(rs.drop_last()) {
            None => None,
            Some(acc) => {
                let r = rs.last();
                if r.title.version == spec_unreleased_label() {
                    Some((Some(r), acc.1))
                } else {
                    match spec_version_parse(r.title.version) {
                        None => None,
                        Some(v) => Some((acc.0, insert_entry(acc.1, v, r))),
                    }
                }
            },
        }
    }
}

/// Read a whole document: the preamble up to the first release title, the
/// releases, and a footer-links block reaching the end of the input.
pub open spec fn p_changelog(s: Seq<char>) -> Option<ChangeLogV> {
    let hb = title_boundary(s, 0);
    let header_txt = trim(s.subrange(0, hb));
    let rel = p_releases(s, hb);
    let j = space_scan(s, rel.1);
    let lk = p_links(s, j);
    let k = space_scan(s, lk.1);
    if k != s.len() {
        None
    } else {
        match fold_releases(rel.0) {
            None => None,
            Some(acc) => Some(
                ChangeLogV {
                    header: if header_txt.len() == 0 {
                        None
                    } else {
                        Some(header_txt)
                    },
                    unreleased: acc.0,
                    releases: acc.1,
                    links: lk.0,
                },
            ),
        }
    }
}

/// Upserting keeps the section titles unique.
proof fn lemma_upsert_wf(acc: Seq<SectionV>, sec: SectionV)
    requires
        crate::model::wf_sections(acc),
    ensures
        crate::model::wf_sections(upsert_section(acc, sec)),
{
    crate::fmt::lemma_find_title_bounds(acc, sec.title, 0);
    let j = find_title(acc, sec.title, 0);
    let r = upsert_section(acc, sec);
    if j < acc.len() {
        assert forall|a: int, b: int| 0 <= a < b < r.len() implies r[a].title != r[b].title by {
            assert(acc[j].title == sec.title);
        }
    } else {
        assert forall|a: int, b: int| 0 <= a < b < r.len() implies r[a].title != r[b].title by {
            if b == acc.len() {
                assert(acc[a].title != sec.title);
            }
        }
    }
}

/// The folded sections of a release keep their titles unique.
proof fn lemma_fold_sections_wf(list: Seq<SectionV>)
    ensures
        crate::model::wf_sections(fold_sections(list)),
    decreases list.len(),
{
    if list.len() > 0 {
        lemma_fold_sections_wf(list.drop_last());
        lemma_upsert_wf(fold_sections(list.drop_last()), list.last());
    }
}

/// A parsed release keeps its section titles unique.
proof fn lemma_p_release_wf(s: Seq<char>, i: int)
    ensures
        p_release(s, i) matches Some(t) ==> crate::model::wf_release(t.0),
{
    match p_title(s, i) {
        None => {},
        Some(t) => {
            let hb = boundary(s, t.1);
            let secs = p_sections(s, hb);
            lemma_fold_sections_wf(secs.0);
        },
    }
}

/// Every parsed release keeps its section titles unique.
proof fn lemma_p_releases_wf(s: Seq<char>, i: int)
    ensures
        forall|k: int|
            0 <= k < p_releases(s, i).0.len() ==> crate::model::wf_release(
                #[trigger] p_releases(s, i).0[k],
            ),
    decreases s.len() - i,
{
    match p_release(s, i) {
        Some(n) => {
            if i < n.1 <= s.len() {
                lemma_p_release_wf(s, i);
                lemma_p_releases_wf(s, n.1);
                assert forall|k: int| 0 <= k < p_releases(s, i).0.len() implies
                    crate::model::wf_release(#[trigger] p_releases(s, i).0[k]) by {
                    if k > 0 {
                        assert(p_releases(s, i).0[k] == p_releases(s, n.1).0[k - 1]);
                    }
                }
            }
        },
        None => {},
    }
}

/// Inserting an entry keeps the keys in strictly ascending order, and every
/// entry of the result either stood there before or carries the new release.
proof fn lemma_insert_entry_wf(es: Seq<EntryV>, v: VersionV, r: ReleaseV)
    requires
        crate::model::wf_entries(es),
    ensures
        crate::model::wf_entries(insert_entry(es, v, r)),
        forall|i: int|
            0 <= i < insert_entry(es, v, r).len() ==> (es.contains(
                #[trigger] insert_entry(es, v, r)[i],
            ) || insert_entry(es, v, r)[i].release == r),
        forall|i: int|
            0 <= i < insert_entry(es, v, r).len() ==> ((exists|j: int|
                0 <= j < es.len() && (#[trigger] es[j]).version == insert_entry(es, v, r)[i].version)
                || (#[trigger] insert_entry(es, v, r)[i]).version == v),
    decreases es.len(),
{
    let out = insert_entry(es, v, r);
    if es.len() == 0 {
    } else if version_key_eq(es.last().version, v) {
        assert forall|a: int, b: int| 0 <= a < b < out.len() implies version_lt(
            #[trigger] out[a].version,
            #[trigger] out[b].version,
        ) by {
            assert(out[a].version == es[a].version && out[b].version == es[b].version);
        }
        assert forall|i: int| 0 <= i < out.len() implies ((exists|j: int|
            0 <= j < es.len() && (#[trigger] es[j]).version == out[i].version)
            || (#[trigger] out[i]).version == v) by {
            assert(es[i].version == out[i].version);
        }
    } else if version_lt(es.last().version, v) {
        assert forall|a: int, b: int| 0 <= a < b < out.len() implies version_lt(
            #[trigger] out[a].version,
            #[trigger] out[b].version,
        ) by {
            if b == es.len() {
                if a < es.len() - 1 {
                    crate::version::lemma_version_lt_trans(
                        es[a].version,
                        es[es.len() - 1].version,
                        v,
                    );
                }
            }
        }
        assert forall|i: int| 0 <= i < out.len() implies (es.contains(#[trigger] out[i])
            || out[i].release == r) by {
            if i < es.len() {
                assert(es[i] == out[i]);
            }
        }
        assert forall|i: int| 0 <= i < out.len() implies ((exists|j: int|
            0 <= j < es.len() && (#[trigger] es[j]).version == out[i].version)
            || (#[trigger] out[i]).version == v) by {
            if i < es.len() {
                assert(es[i].version == out[i].version);
            }
        }
    } else {
        crate::version::lemma_version_order_trichotomy(es.last().version, v);
        assert(version_lt(v, es.last().version));
        assert(crate::model::wf_entries(es.drop_last()));
        lemma_insert_entry_wf(es.drop_last(), v, r);
        let inner = insert_entry(es.drop_last(), v, r);
        assert forall|a: int, b: int| 0 <= a < b < out.len() implies version_lt(
            #[trigger] out[a].version,
            #[trigger] out[b].version,
        ) by {
            if b == out.len() - 1 {
                assert(out[b] == es.last());
                assert(out[a] == inner[a]);
                if inner[a].version == v {
                } else {
                    let j = choose|j: int|
                        0 <= j < es.drop_last().len() && (#[trigger] es.drop_last()[j]).version
                            == inner[a].version;
                    assert(es[j].version == inner[a].version);
                    assert(version_lt(es[j].version, es.last().version));
                }
            } else {
                assert(out[a] == inner[a] && out[b] == inner[b]);
            }
        }
        assert forall|i: int| 0 <= i < out.len() implies (es.contains(#[trigger] out[i])
            || out[i].release == r) by {
            if i < out.len() - 1 {
                assert(out[i] == inner[i]);
                if es.drop_last().contains(inner[i]) {
                    let k = choose|k: int|
                        0 <= k < es.drop_last().len() && es.drop_last()[k] == inner[i];
                    assert(es[k] == inner[i]);
                }
            } else {
                assert(out[i] == es.last());
                assert(es.contains(es.last()));
            }
        }
        assert forall|i: int| 0 <= i < out.len() implies ((exists|j: int|
            0 <= j < es.len() && (#[trigger] es[j]).version == out[i].version)
            || (#[trigger] out[i]).version == v) by {
            if i < out.len() - 1 {
                assert(out[i] == inner[i]);
                if inner[i].version != v {
                    let j = choose|j: int|
                        0 <= j < es.drop_last().len() && (#[trigger] es.drop_last()[j]).version
                            == inner[i].version;
                    assert(es[j].version == out[i].version);
                }
            } else {
                assert(out[i] == es.last());
                assert(es[es.len() - 1].version == out[i].version);
            }
        }
    }
}

/// The folded releases keep ascending keys and well-formed sections.
proof fn lemma_fold_releases_wf(rs: Seq<ReleaseV>)
    requires
        forall|k: int| 0 <= k < rs.len() ==> crate::model::wf_release(#[trigger] rs[k]),
    ensures
        fold_releases(rs) matches Some(acc) ==> {
            &&& crate::model::wf_entries(acc.1)
            &&& forall|i: int|
                0 <= i < acc.1.len() ==> crate::model::wf_release(
                    (#[trigger] acc.1[i]).release,
                )
            &&& (acc.0 matches Some(u) ==> crate::model::wf_release(u))
        },
    decreases rs.len(),
{
    if rs.len() > 0 {
        assert(forall|k: int|
            0 <= k < rs.drop_last().len() ==> crate::model::wf_release(
                #[trigger] rs.drop_last()[k],
            ));
        lemma_fold_releases_wf(rs.drop_last());
        match fold_releases(rs.drop_last()) {
            None => {},
            Some(acc) => {
                let r = rs.last();
                assert(crate::model::wf_release(r));
                if r.title.version == crate::model::spec_unreleased_label() {
                } else {
                    match crate::version::spec_version_parse(r.title.version) {
                        None => {},
                        Some(v) => {
                            lemma_insert_entry_wf(acc.1, v, r);
                            let out = insert_entry(acc.1, v, r);
                            assert forall|i: int| 0 <= i < out.len() implies
                                crate::model::wf_release((#[trigger] out[i]).release) by {
                                if out[i].release != r {
                                    assert(acc.1.contains(out[i]));
                                    let k = choose|k: int|
                                        0 <= k < acc.1.len() && acc.1[k] == out[i];
                                }
                            }
                        },
                    }
                }
            },
        }
    }
}

/// A document the grammar accepts is well formed: stored releases in
/// strictly ascending key order, section titles unique everywhere.
pub proof fn lemma_p_changelog_wf(s: Seq<char>)
    ensures
        p_changelog(s) matches Some(c) ==> crate::model::wf_changelog(c),
{
    let hb = title_boundary(s, 0);
    let rel = p_releases(s, hb);
    lemma_p_releases_wf(s, hb);
    lemma_fold_releases_wf(rel.0);
}

/// Exec mirror of [`nl_scan`].
fn find_nl(s: &Vec<char>, from: usize) -> (r: usize)
    requires
        from <= s@.len(),
    ensures
        r == nl_scan(s@, from as int),
        from <= r <= s@.len(),
{
    let mut i: usize = from;
    loop
        invariant
            from <= i <= s@.len(),
            nl_scan(s@, from as int) == nl_scan(s@, i as int),
        decreases s@.len() - i,
    {
        if i == s.len() {
            return i;
        }
        if s[i] == '\n' {
            return i;
        }
        i = i + 1;
    }
}

/// Exec mirror of [`ver_scan`].
fn find_ver(s: &Vec<char>, from: usize) -> (r: usize)
    requires
        from <= s@.len(),
    ensures
        r == ver_scan(s@, from as int),
        from <= r <= s@.len(),
{
    let mut i: usize = from;
    loop
        invariant
            from <= i <= s@.len(),
            ver_scan(s@, from as int) == ver_scan(s@, i as int),
        decreases s@.len() - i,
    {
        if i == s.len() {
            return i;
        }
        if s[i] == '\n' || s[i] == ']' {
            return i;
        }
        i = i + 1;
    }
}

/// Exec mirror of [`link_scan`].
fn find_link(s: &Vec<char>, from: usize) -> (r: usize)
    requires
        from <= s@.len(),
    ensures
        r == link_scan(s@, from as int),
        from <= r <= s@.len(),
{
    let mut i: usize = from;
    loop
        invariant
            from <= i <= s@.len(),
            link_scan(s@, from as int) == link_scan(s@, i as int),
        decreases s@.len() - i,
    {
        if i == s.len() {
            return i;
        }
        if s[i] == '\n' || s[i] == ')' {
            return i;
        }
        i = i + 1;
    }
}

/// Exec mirror of [`scope_scan`].
fn find_scope(s: &Vec<char>, from: usize) -> (r: usize)
    requires
        from <= s@.len(),
    ensures
        r == scope_scan(s@, from as int),
        from <= r <= s@.len(),
{
    let mut i: usize = from;
    loop
        invariant
            from <= i <= s@.len(),
            scope_scan(s@, from as int) == scope_scan(s@, i as int),
        decreases s@.len() - i,
    {
        if i == s.len() {
            return i;
        }
        let c = s[i];
        if c == ' ' || c == '\t' || c == '\r' || c == '`' || c == ':' || c == '\n' {
            return i;
        }
        i = i + 1;
    }
}

/// Exec mirror of [`space_scan`].
fn find_space(s: &Vec<char>, from: usize) -> (r: usize)
    requires
        from <= s@.len(),
    ensures
        r == space_scan(s@, from as int),
        from <= r <= s@.len(),
{
    let mut i: usize = from;
    loop
        invariant
            from <= i <= s@.len(),
            space_scan(s@, from as int) == space_scan(s@, i as int),
        decreases s@.len() - i,
    {
        if i == s.len() {
            return i;
        }
        let c = s[i];
        if !(c == ' ' || c == '\t' || c == '\r' || c == '\n') {
            return i;
        }
        i = i + 1;
    }
}

/// Exec mirror of [`spaceline_scan`].
fn find_spaceline(s: &Vec<char>, from: usize) -> (r: usize)
    requires
        from <= s@.len(),
    ensures
        r == spaceline_scan(s@, from as int),
        from <= r <= s@.len(),
{
    let mut i: usize = from;
    loop
        invariant
            from <= i <= s@.len(),
            spaceline_scan(s@, from as int) == spaceline_scan(s@, i as int),
        decreases s@.len() - i,
    {
        if i == s.len() {
            return i;
        }
        let c = s[i];
        if !(c == ' ' || c == '\n') {
            return i;
        }
        i = i + 1;
    }
}

/// Whether the literal `lit` occurs in `s` at `i`.
fn lit_at(s: &Vec<char>, lit: &str, i: usize) -> (r: bool)
    requires
        i <= s@.len(),
    ensures
        r == occurs_at(s@, lit@, i as int),
{
    let nv = crate::text::str_to_chars(lit);
    crate::text::matches_at(s, &nv, i)
}

/// Read a release title line, as [`p_title`] says.
pub(crate) fn parse_title(s: &Vec<char>, i: usize) -> (r: Option<(ReleaseTitle, usize)>)
    requires
        i <= s@.len(),
    ensures
        ({
            let sp = p_title(s@, i as int);
            match r {
                Some(t) => sp is Some && t.0@ == (sp->0).0 && t.1 == (sp->0).1 && i < t.1
                    <= s@.len(),
                None => sp is None,
            }
        }),
{
    if !lit_at(s, "## [", i) {
        return None;
    }
    proof {
        reveal_strlit("## [");
    }
    let n = s.len();
    let v0 = i + 4;
    let ve = find_ver(s, v0);
    if ve == v0 || ve == n || s[ve] != ']' {
        return None;
    }
    let version = crate::text::capture_trimmed(s, v0, ve);
    let p1 = ve + 1;
    let mut link: Option<String> = None;
    let mut p2 = p1;
    if p1 < s.len() && s[p1] == '(' {
        let le = find_link(s, p1 + 1);
        if le > p1 + 1 && le < s.len() && s[le] == ')' {
            link = Some(crate::text::capture_trimmed(s, p1 + 1, le));
            p2 = le + 1;
        }
    }
    let mut title: Option<String> = None;
    let mut p3 = p2;
    proof {
        reveal_strlit(" - ");
    }
    if lit_at(s, " - ", p2) {
        let te = find_ver(s, p2 + 3);
        if te > p2 + 3 {
            title = Some(crate::text::capture_trimmed(s, p2 + 3, te));
            p3 = te;
        }
    }
    let t = ReleaseTitle { version, release_link: link, title };
    proof {
        let sp = p_title(s@, i as int);
        assert(sp is Some);
        assert(t@ =~= (sp->0).0);
    }
    Some((t, p3))
}

/// Read the context lines of a note, as [`p_context`] says.
fn parse_context(s: &Vec<char>, i: usize) -> (r: (Vec<String>, usize))
    requires
        i <= s@.len(),
    ensures
        r.0.deep_view() == p_context(s@, i as int).0,
        r.1 == p_context(s@, i as int).1,
        i <= r.1 <= s@.len(),
{
    let mut out: Vec<String> = Vec::new();
    let mut cur: usize = i;
    proof {
        assert(out.deep_view() =~= Seq::<Seq<char>>::empty());
        assert(Seq::<Seq<char>>::empty() + p_context(s@, i as int).0 =~= p_context(
            s@,
            i as int,
        ).0);
    }
    loop
        invariant
            i <= cur <= s@.len(),
            p_context(s@, i as int).0 == out.deep_view() + p_context(s@, cur as int).0,
            p_context(s@, i as int).1 == p_context(s@, cur as int).1,
        decreases s@.len() - cur,
    {
        if cur == s.len() {
            proof {
                assert(p_context(s@, cur as int).0 =~= Seq::<Seq<char>>::empty());
                assert(out.deep_view() + Seq::<Seq<char>>::empty() =~= out.deep_view());
            }
            return (out, cur);
        }
        let c = s[cur];
        if !(c == ' ' || c == '\t') {
            proof {
                assert(p_context(s@, cur as int).0 =~= Seq::<Seq<char>>::empty());
                assert(out.deep_view() + Seq::<Seq<char>>::empty() =~= out.deep_view());
            }
            return (out, cur);
        }
        let ce = find_nl(s, cur + 1);
        if !(ce > cur + 1 && ce < s.len()) {
            proof {
                assert(p_context(s@, cur as int).0 =~= Seq::<Seq<char>>::empty());
                assert(out.deep_view() + Seq::<Seq<char>>::empty() =~= out.deep_view());
            }
            return (out, cur);
        }
        let ghost prev = out.deep_view();
        let line = crate::text::capture_trimmed(s, cur + 1, ce);
        out.push(line);
        proof {
            assert(out.deep_view() =~= prev.push(trim(s@.subrange(cur + 1, ce as int))));
            assert(p_context(s@, cur as int).0 =~= seq![trim(s@.subrange(cur + 1, ce as int))]
                + p_context(s@, ce + 1).0);
            assert(out.deep_view() + p_context(s@, ce + 1).0 =~= prev + p_context(
                s@,
                cur as int,
            ).0);
        }
        cur = ce + 1;
    }
}

/// Read one note, as [`p_note`] says.
fn parse_note(s: &Vec<char>, i: usize) -> (r: Option<(ReleaseSectionNote, usize)>)
    requires
        i <= s@.len(),
    ensures
        ({
            let sp = p_note(s@, i as int);
            match r {
                Some(t) => sp is Some && t.0@ == (sp->0).0 && t.1 == (sp->0).1 && i < t.1
                    <= s@.len(),
                None => sp is None,
            }
        }),
{
    let j = find_spaceline(s, i);
    if !lit_at(s, "- ", j) {
        return None;
    }
    proof {
        reveal_strlit("- ");
    }
    let n = s.len();
    let p0 = j + 2;
    let se = find_scope(s, p0);
    let has_scope = se > p0 && se < n && s[se] == ':';
    let p1 = if has_scope {
        se + 1
    } else {
        p0
    };
    let me = find_nl(s, p1);
    if me == p1 || me == s.len() {
        return None;
    }
    let scope: Option<String> = if has_scope {
        Some(crate::text::capture_trimmed(s, p0, se))
    } else {
        None
    };
    let message = crate::text::capture_trimmed(s, p1, me);
    let (context, pos) = parse_context(s, me + 1);
    let note = ReleaseSectionNote { scope, message, context };
    proof {
        let sp = p_note(s@, i as int);
        assert(sp is Some);
        assert(note@ =~= (sp->0).0);
    }
    Some((note, pos))
}

/// Read as many notes as match, as [`p_notes`] says.
fn parse_notes(s: &Vec<char>, i: usize) -> (r: (Vec<ReleaseSectionNote>, usize))
    requires
        i <= s@.len(),
    ensures
        r.0@.map_values(|n: ReleaseSectionNote| n@) == p_notes(s@, i as int).0,
        r.1 == p_notes(s@, i as int).1,
        i <= r.1 <= s@.len(),
{
    let mut out: Vec<ReleaseSectionNote> = Vec::new();
    let mut cur: usize = i;
    proof {
        assert(out@.map_values(|n: ReleaseSectionNote| n@) =~= Seq::<NoteV>::empty());
        assert(Seq::<NoteV>::empty() + p_notes(s@, i as int).0 =~= p_notes(s@, i as int).0);
    }
    loop
        invariant
            i <= cur <= s@.len(),
            p_notes(s@, i as int).0 == out@.map_values(|n: ReleaseSectionNote| n@) + p_notes(
                s@,
                cur as int,
            ).0,
            p_notes(s@, i as int).1 == p_notes(s@, cur as int).1,
        decreases s@.len() - cur,
    {
        match parse_note(s, cur) {
            Some((note, pos)) => {
                let ghost prev = out@.map_values(|n: ReleaseSectionNote| n@);
                let ghost nv = note@;
                out.push(note);
                proof {
                    assert(out@.map_values(|n: ReleaseSectionNote| n@) =~= prev.push(nv));
                    assert(p_notes(s@, cur as int).0 =~= seq![nv] + p_notes(s@, pos as int).0);
                    assert(out@.map_values(|n: ReleaseSectionNote| n@) + p_notes(
                        s@,
                        pos as int,
                    ).0 =~= prev + p_notes(s@, cur as int).0);
                }
                cur = pos;
            },
            None => {
                proof {
                    assert(p_notes(s@, cur as int).0 =~= Seq::<NoteV>::empty());
                    assert(out@.map_values(|n: ReleaseSectionNote| n@) + Seq::<NoteV>::empty()
                        =~= out@.map_values(|n: ReleaseSectionNote| n@));
                }
                return (out, cur);
            },
        }
    }
}

/// Read one section, as [`p_section`] says.
fn parse_section(s: &Vec<char>, i: usize) -> (r: Option<(ReleaseSection, usize)>)
    requires
        i <= s@.len(),
    ensures
        ({
            let sp = p_section(s@, i as int);
            match r {
                Some(t) => sp is Some && t.0@ == (sp->0).0 && t.1 == (sp->0).1 && i < t.1
                    <= s@.len(),
                None => sp is None,
            }
        }),
{
    let j = find_space(s, i);
    if !lit_at(s, "### ", j) {
        return None;
    }
    proof {
        reveal_strlit("### ");
    }
    let n = s.len();
    let t0 = j + 4;
    let te = find_nl(s, t0);
    if te == t0 || te == n {
        return None;
    }
    let title = crate::text::capture_trimmed(s, t0, te);
    let k = find_space(s, te + 1);
    let (notes, pos) = parse_notes(s, k);
    let sec = ReleaseSection { title, notes };
    proof {
        let sp = p_section(s@, i as int);
        assert(sp is Some);
        assert(sec@ =~= (sp->0).0);
    }
    Some((sec, pos))
}

/// Read as many sections as match, as [`p_sections`] says.
fn parse_sections(s: &Vec<char>, i: usize) -> (r: (Vec<ReleaseSection>, usize))
    requires
        i <= s@.len(),
    ensures
        r.0@.map_values(|x: ReleaseSection| x@) == p_sections(s@, i as int).0,
        r.1 == p_sections(s@, i as int).1,
        i <= r.1 <= s@.len(),
{
    let mut out: Vec<ReleaseSection> = Vec::new();
    let mut cur: usize = i;
    proof {
        assert(out@.map_values(|x: ReleaseSection| x@) =~= Seq::<SectionV>::empty());
        assert(Seq::<SectionV>::empty() + p_sections(s@, i as int).0 =~= p_sections(
            s@,
            i as int,
        ).0);
    }
    loop
        invariant
            i <= cur <= s@.len(),
            p_sections(s@, i as int).0 == out@.map_values(|x: ReleaseSection| x@) + p_sections(
                s@,
                cur as int,
            ).0,
            p_sections(s@, i as int).1 == p_sections(s@, cur as int).1,
        decreases s@.len() - cur,
    {
        match parse_section(s, cur) {
            Some((sec, pos)) => {
                let ghost prev = out@.map_values(|x: ReleaseSection| x@);
                let ghost sv = sec@;
                out.push(sec);
                proof {
                    assert(out@.map_values(|x: ReleaseSection| x@) =~= prev.push(sv));
                    assert(p_sections(s@, cur as int).0 =~= seq![sv] + p_sections(
                        s@,
                        pos as int,
                    ).0);
                    assert(out@.map_values(|x: ReleaseSection| x@) + p_sections(
                        s@,
                        pos as int,
                    ).0 =~= prev + p_sections(s@, cur as int).0);
                }
                cur = pos;
            },
            None => {
                proof {
                    assert(p_sections(s@, cur as int).0 =~= Seq::<SectionV>::empty());
                    assert(out@.map_values(|x: ReleaseSection| x@) + Seq::<SectionV>::empty()
                        =~= out@.map_values(|x: ReleaseSection| x@));
                }
                return (out, cur);
            },
        }
    }
}

/// Read one reference link line, as [`p_link`] says.
fn parse_link(s: &Vec<char>, i: usize) -> (r: Option<(FooterLink, usize)>)
    requires
        i <= s@.len(),
    ensures
        ({
            let sp = p_link(s@, i as int);
            match r {
                Some(t) => sp is Some && t.0@ == (sp->0).0 && t.1 == (sp->0).1 && i < t.1
                    <= s@.len(),
                None => sp is None,
            }
        }),
{
    if i == s.len() || s[i] != '[' {
        return None;
    }
    let te = find_ver(s, i + 1);
    if te == i + 1 || te == s.len() || !lit_at(s, "]: ", te) {
        return None;
    }
    proof {
        reveal_strlit("]: ");
    }
    let u0 = te + 3;
    let ue = find_nl(s, u0);
    if ue == u0 || ue == s.len() {
        return None;
    }
    let text = crate::text::capture_trimmed(s, i + 1, te);
    let link = crate::text::capture_trimmed(s, u0, ue);
    let l = FooterLink { text, link };
    proof {
        let sp = p_link(s@, i as int);
        assert(sp is Some);
        assert(l@ =~= (sp->0).0);
    }
    Some((l, ue + 1))
}

/// Read as many reference link lines as match, as [`p_links`] says.
fn parse_links(s: &Vec<char>, i: usize) -> (r: (Vec<FooterLink>, usize))
    requires
        i <= s@.len(),
    ensures
        r.0@.map_values(|x: FooterLink| x@) == p_links(s@, i as int).0,
        r.1 == p_links(s@, i as int).1,
        i <= r.1 <= s@.len(),
{
    let mut out: Vec<FooterLink> = Vec::new();
    let mut cur: usize = i;
    proof {
        assert(out@.map_values(|x: FooterLink| x@) =~= Seq::<LinkV>::empty());
        assert(Seq::<LinkV>::empty() + p_links(s@, i as int).0 =~= p_links(s@, i as int).0);
    }
    loop
        invariant
            i <= cur <= s@.len(),
            p_links(s@, i as int).0 == out@.map_values(|x: FooterLink| x@) + p_links(
                s@,
                cur as int,
            ).0,
            p_links(s@, i as int).1 == p_links(s@, cur as int).1,
        decreases s@.len() - cur,
    {
        match parse_link(s, cur) {
            Some((l, pos)) => {
                let ghost prev = out@.map_values(|x: FooterLink| x@);
                let ghost lv = l@;
                out.push(l);
                proof {
                    assert(out@.map_values(|x: FooterLink| x@) =~= prev.push(lv));
                    assert(p_links(s@, cur as int).0 =~= seq![lv] + p_links(s@, pos as int).0);
                    assert(out@.map_values(|x: FooterLink| x@) + p_links(s@, pos as int).0 =~=
                        prev + p_links(s@, cur as int).0);
                }
                cur = pos;
            },
            None => {
                proof {
                    assert(p_links(s@, cur as int).0 =~= Seq::<LinkV>::empty());
                    assert(out@.map_values(|x: FooterLink| x@) + Seq::<LinkV>::empty() =~= out@
                        .map_values(|x: FooterLink| x@));
                }
                return (out, cur);
            },
        }
    }
}

/// Whether a section begins at `i`, as [`p_section`] decides.
fn section_starts(s: &Vec<char>, i: usize) -> (r: bool)
    requires
        i <= s@.len(),
    ensures
        r == (p_section(s@, i as int) is Some),
{
    let j = find_space(s, i);
    if !lit_at(s, "### ", j) {
        return false;
    }
    proof {
        reveal_strlit("### ");
    }
    let n = s.len();
    let t0 = j + 4;
    let te = find_nl(s, t0);
    te > t0 && te < n
}

/// Whether a release title begins at `i`, as [`p_title`] decides.
fn title_starts(s: &Vec<char>, i: usize) -> (r: bool)
    requires
        i <= s@.len(),
    ensures
        r == (p_title(s@, i as int) is Some),
{
    if !lit_at(s, "## [", i) {
        return false;
    }
    proof {
        reveal_strlit("## [");
    }
    let n = s.len();
    let v0 = i + 4;
    let ve = find_ver(s, v0);
    ve > v0 && ve < n && s[ve] == ']'
}

/// Whether the rest of the input from `i` is exactly a footer-links block,
/// as [`links_match`] decides.
fn links_to_end(s: &Vec<char>, i: usize) -> (r: bool)
    requires
        i <= s@.len(),
    ensures
        r == links_match(s@, i as int),
{
    let j = find_space(s, i);
    let (_links, e) = parse_links(s, j);
    let k = find_space(s, e);
    k == s.len()
}

/// The first position at or after `i` where a release's free text stops.
fn find_boundary(s: &Vec<char>, i: usize) -> (r: usize)
    requires
        i <= s@.len(),
    ensures
        r == boundary(s@, i as int),
        i <= r <= s@.len(),
{
    let mut cur: usize = i;
    loop
        invariant
            i <= cur <= s@.len(),
            boundary(s@, i as int) == boundary(s@, cur as int),
        decreases s@.len() - cur,
    {
        if cur == s.len() {
            return cur;
        }
        if title_starts(s, cur) || section_starts(s, cur) || links_to_end(s, cur) {
            return cur;
        }
        cur = cur + 1;
    }
}

/// The end of the document preamble: the first release title position.
fn find_title_boundary(s: &Vec<char>, i: usize) -> (r: usize)
    requires
        i <= s@.len(),
    ensures
        r == title_boundary(s@, i as int),
        i <= r <= s@.len(),
{
    let mut cur: usize = i;
    loop
        invariant
            i <= cur <= s@.len(),
            title_boundary(s@, i as int) == title_boundary(s@, cur as int),
        decreases s@.len() - cur,
    {
        if cur == s.len() {
            return cur;
        }
        if title_starts(s, cur) {
            return cur;
        }
        cur = cur + 1;
    }
}

/// Insert a parsed section into the ordered unique-titled list, as
/// [`upsert_section`] says.
fn upsert_section_vec(acc: Vec<ReleaseSection>, sec: ReleaseSection) -> (r: Vec<ReleaseSection>)
    ensures
        r@.map_values(|x: ReleaseSection| x@) == upsert_section(
            acc@.map_values(|x: ReleaseSection| x@),
            sec@,
        ),
{
    let ghost m = acc@.map_values(|x: ReleaseSection| x@);
    let ghost sv = sec@;
    let mut acc = acc;
    match crate::fmt::find_title_vec(&acc, sec.title.as_str()) {
        Some(idx) => {
            let _ = acc.remove(idx);
            acc.insert(idx, sec);
            proof {
                assert(acc@.map_values(|x: ReleaseSection| x@) =~= m.update(idx as int, sv));
            }
            acc
        },
        None => {
            acc.push(sec);
            proof {
                assert(acc@.map_values(|x: ReleaseSection| x@) =~= m.push(sv));
            }
            acc
        },
    }
}

/// Fold the parsed sections of one release in order of appearance, as
/// [`fold_sections`] says.
fn fold_sections_vec(list: Vec<ReleaseSection>) -> (r: Vec<ReleaseSection>)
    ensures
        r@.map_values(|x: ReleaseSection| x@) == fold_sections(
            list@.map_values(|x: ReleaseSection| x@),
        ),
{
    let ghost m = list@.map_values(|x: ReleaseSection| x@);
    let mut out: Vec<ReleaseSection> = Vec::new();
    let mut i: usize = 0;
    proof {
        assert(out@.map_values(|x: ReleaseSection| x@) =~= fold_sections(m.take(0)));
    }
    while i < list.len()
        invariant
            0 <= i <= list@.len(),
            m == list@.map_values(|x: ReleaseSection| x@),
            m.len() == list@.len(),
            out@.map_values(|x: ReleaseSection| x@) == fold_sections(m.take(i as int)),
        decreases list@.len() - i,
    {
        proof {
            assert(m.take(i + 1).drop_last() =~= m.take(i as int));
            assert(m.take(i + 1).last() == m[i as int]);
            assert(m[i as int] == list@[i as int]@);
        }
        out = upsert_section_vec(out, list[i].duplicate());
        i = i + 1;
    }
    proof {
        assert(m.take(i as int) =~= m);
    }
    out
}

/// Read one release, as [`p_release`] says.
fn parse_release(s: &Vec<char>, i: usize) -> (r: Option<(Release, usize)>)
    requires
        i <= s@.len(),
    ensures
        ({
            let sp = p_release(s@, i as int);
            match r {
                Some(t) => sp is Some && t.0@ == (sp->0).0 && t.1 == (sp->0).1 && i < t.1
                    <= s@.len(),
                None => sp is None,
            }
        }),
{
    let (title, tp) = match parse_title(s, i) {
        Some(t) => t,
        None => {
            return None;
        },
    };
    let hb = find_boundary(s, tp);
    let header_txt = crate::text::capture_trimmed(s, tp, hb);
    let header: Option<String> = if header_txt.as_str().is_empty() {
        None
    } else {
        Some(header_txt)
    };
    let (sections, sp_) = parse_sections(s, hb);
    let fb = find_boundary(s, sp_);
    let footer_txt = crate::text::capture_trimmed(s, sp_, fb);
    let footer: Option<String> = if footer_txt.as_str().is_empty() {
        None
    } else {
        Some(footer_txt)
    };
    let note_sections = fold_sections_vec(sections);
    let release = Release { title, header, note_sections, footer };
    proof {
        let sp = p_release(s@, i as int);
        assert(sp is Some);
        assert(release@ =~= (sp->0).0);
    }
    Some((release, fb))
}

/// Read as many releases as match, as [`p_releases`] says.
fn parse_releases(s: &Vec<char>, i: usize) -> (r: (Vec<Release>, usize))
    requires
        i <= s@.len(),
    ensures
        r.0@.map_values(|x: Release| x@) == p_releases(s@, i as int).0,
        r.1 == p_releases(s@, i as int).1,
        i <= r.1 <= s@.len(),
{
    let mut out: Vec<Release> = Vec::new();
    let mut cur: usize = i;
    proof {
        assert(out@.map_values(|x: Release| x@) =~= Seq::<ReleaseV>::empty());
        assert(Seq::<ReleaseV>::empty() + p_releases(s@, i as int).0 =~= p_releases(
            s@,
            i as int,
        ).0);
    }
    loop
        invariant
            i <= cur <= s@.len(),
            p_releases(s@, i as int).0 == out@.map_values(|x: Release| x@) + p_releases(
                s@,
                cur as int,
            ).0,
            p_releases(s@, i as int).1 == p_releases(s@, cur as int).1,
        decreases s@.len() - cur,
    {
        match parse_release(s, cur) {
            Some((rel, pos)) => {
                let ghost prev = out@.map_values(|x: Release| x@);
                let ghost rv = rel@;
                out.push(rel);
                proof {
                    assert(out@.map_values(|x: Release| x@) =~= prev.push(rv));
                    assert(p_releases(s@, cur as int).0 =~= seq![rv] + p_releases(
                        s@,
                        pos as int,
                    ).0);
                    assert(out@.map_values(|x: Release| x@) + p_releases(s@, pos as int).0 =~=
                        prev + p_releases(s@, cur as int).0);
                }
                cur = pos;
            },
            None => {
                proof {
                    assert(p_releases(s@, cur as int).0 =~= Seq::<ReleaseV>::empty());
                    assert(out@.map_values(|x: Release| x@) + Seq::<ReleaseV>::empty() =~= out@
                        .map_values(|x: Release| x@));
                }
                return (out, cur);
            },
        }
    }
}

/// Insert a release at its version key, as [`insert_entry`] says.
pub(crate) fn insert_entry_vec(es: Vec<crate::model::ReleaseEntry>, v: Version, r: Release) -> (out: Vec<
    crate::model::ReleaseEntry,
>)
    ensures
        out@.map_values(|e: crate::model::ReleaseEntry| e@) == insert_entry(
            es@.map_values(|e: crate::model::ReleaseEntry| e@),
            v@,
            r@,
        ),
    decreases es@.len(),
{
    let ghost m = es@.map_values(|e: crate::model::ReleaseEntry| e@);
    let mut es = es;
    if es.len() == 0 {
        es.push(crate::model::ReleaseEntry { version: v, release: r });
        proof {
            assert(es@.map_values(|e: crate::model::ReleaseEntry| e@) =~= insert_entry(
                m,
                v@,
                r@,
            ));
        }
        es
    } else {
        proof {
            assert(m.last() == es@[es@.len() - 1]@);
        }
        let last_idx = es.len() - 1;
        if es[last_idx].version.key_equal(&v) {
            let kept_version = es[last_idx].version.duplicate();
            let _ = es.remove(last_idx);
            let entry = crate::model::ReleaseEntry { version: kept_version, release: r };
            proof {
                assert(entry@ =~= (EntryV { version: m.last().version, release: r@ }));
            }
            es.push(entry);
            proof {
                assert(es@.map_values(|e: crate::model::ReleaseEntry| e@) =~= m.update(
                    m.len() - 1,
                    EntryV { version: m.last().version, release: r@ },
                ));
            }
            es
        } else if es[last_idx].version.key_less(&v) {
            let entry = crate::model::ReleaseEntry { version: v, release: r };
            let ghost ev = entry@;
            es.push(entry);
            proof {
                assert(es@.map_values(|e: crate::model::ReleaseEntry| e@) =~= m.push(ev));
            }
            es
        } else {
            let last = es.pop().unwrap();
            proof {
                assert(es@.map_values(|e: crate::model::ReleaseEntry| e@) =~= m.drop_last());
            }
            let mut out = insert_entry_vec(es, v, r);
            let ghost prev = out@.map_values(|e: crate::model::ReleaseEntry| e@);
            let ghost lv = last@;
            out.push(last);
            proof {
                assert(out@.map_values(|e: crate::model::ReleaseEntry| e@) =~= prev.push(lv));
            }
            out
        }
    }
}

/// Distribute the parsed releases into the staging slot and the ordered
/// map, as [`fold_releases`] says; a version text that cannot be read is
/// reported with the text itself.
fn fold_releases_vec(list: Vec<Release>) -> (r: Result<
    (Option<Release>, Vec<crate::model::ReleaseEntry>),
    Error,
>)
    ensures
        ({
            let sp = fold_releases(list@.map_values(|x: Release| x@));
            match r {
                Ok(acc) => sp is Some && ({
                    let spv = sp->0;
                    &&& (match acc.0 {
                        Some(u) => spv.0 == Some(u@),
                        None => spv.0 is None,
                    })
                    &&& acc.1@.map_values(|e: crate::model::ReleaseEntry| e@) == spv.1
                }),
                Err(e) => sp is None && e matches Error::InvalidVersionFormat { .. },
            }
        }),
{
    let ghost m = list@.map_values(|x: Release| x@);
    let mut unrel: Option<Release> = None;
    let mut entries: Vec<crate::model::ReleaseEntry> = Vec::new();
    let mut i: usize = 0;
    proof {
        assert(fold_releases(m.take(0)) == Some(
            (None::<ReleaseV>, Seq::<EntryV>::empty()),
        ));
        assert(entries@.map_values(|e: crate::model::ReleaseEntry| e@) =~= Seq::<
            EntryV,
        >::empty());
    }
    while i < list.len()
        invariant
            0 <= i <= list@.len(),
            m == list@.map_values(|x: Release| x@),
            m.len() == list@.len(),
            fold_releases(m.take(i as int)) matches Some(acc) && (match unrel {
                Some(u) => acc.0 == Some(u@),
                None => acc.0 is None,
            }) && entries@.map_values(|e: crate::model::ReleaseEntry| e@) == acc.1,
        decreases list@.len() - i,
    {
        proof {
            assert(m.take(i + 1).drop_last() =~= m.take(i as int));
            assert(m.take(i + 1).last() == m[i as int]);
            assert(m[i as int] == list@[i as int]@);
        }
        let rel = list[i].duplicate();
        let label = crate::model::unreleased_label();
        if crate::text::str_eq(rel.title.version.as_str(), label.as_str()) {
            unrel = Some(rel);
        } else {
            match Version::parse(rel.title.version.as_str()) {
                Ok(v) => {
                    entries = insert_entry_vec(entries, v, rel);
                },
                Err(e) => {
                    proof {
                        assert(fold_releases(m.take(i + 1)) is None);
                        lemma_fold_releases_none(m, i + 1);
                    }
                    return Err(e);
                },
            }
        }
        i = i + 1;
    }
    proof {
        assert(m.take(i as int) =~= m);
    }
    Ok((unrel, entries))
}

/// Once a prefix of the releases fails to fold, the whole list fails too.
proof fn lemma_fold_releases_none(m: Seq<ReleaseV>, k: int)
    requires
        0 <= k <= m.len(),
        fold_releases(m.take(k)) is None,
    ensures
        fold_releases(m) is None,
    decreases m.len() - k,
{
    if k < m.len() {
        assert(m.take(k + 1).drop_last() =~= m.take(k));
        lemma_fold_releases_none(m, k + 1);
    } else {
        assert(m.take(k) =~= m);
    }
}

/// Read a whole document, as [`p_changelog`] says: the result is exactly
/// the model the grammar gives, and reading fails exactly where the grammar
/// rejects the text.
pub fn parse_changelog(input: &str) -> (r: Result<ChangeLog, Error>)
    ensures
        r is Ok <==> p_changelog(input@) is Some,
        r is Ok ==> r->Ok_0@ == p_changelog(input@)->0,
        r is Ok ==> crate::model::wf_changelog(r->Ok_0@),
        r is Err ==> (r->Err_0 matches Error::ParseError { .. } || r->Err_0
            matches Error::InvalidVersionFormat { .. }),
{
    proof {
        lemma_p_changelog_wf(input@);
    }
    let s = crate::text::str_to_chars(input);
    let hb = find_title_boundary(&s, 0);
    let header_txt = crate::text::capture_trimmed(&s, 0, hb);
    let header: Option<String> = if header_txt.as_str().is_empty() {
        None
    } else {
        Some(header_txt)
    };
    let (releases, rp) = parse_releases(&s, hb);
    let j = find_space(&s, rp);
    let (links, lp) = parse_links(&s, j);
    let k = find_space(&s, lp);
    if k != s.len() {
        return Err(Error::ParseError { position: k });
    }
    match fold_releases_vec(releases) {
        Ok((unreleased, entries)) => {
            let changelog = ChangeLog {
                header,
                unreleased,
                releases: entries,
                footer_links: FooterLinks { links },
            };
            proof {
                assert(p_changelog(input@) is Some);
                assert(changelog@ =~= p_changelog(input@)->0);
            }
            Ok(changelog)
        },
        Err(e) => Err(e),
    }
}

} // verus!
