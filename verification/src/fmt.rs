//! The sanitizer: the in-place normalization pass. Within each release it
//! collapses duplicate notes to their first occurrence, drops notes with an
//! empty message and sections left empty, reorders sections by a given title
//! order, optionally groups notes by scope, and finally makes sure the
//! staging `unreleased` release is there.
//!
//! Sanitizing never fails: it is a pure, total transformation of the model.

use vstd::prelude::*;

use crate::model::{
    ChangeLog, ChangeLogV, EntryV, NoteV, Release, ReleaseSection, ReleaseSectionNote, ReleaseV,
    SectionV, default_unreleased, spec_default_unreleased, wf_changelog, wf_release,
    wf_sections,
};
use crate::text::str_eq;

verus! {

/// How notes and sections are reordered.
#[derive(Debug, Clone)]
pub struct SortOptions {
    /// Sections whose titles stand here come first, in this order; the rest
    /// keep their relative order after them.
    pub section_order: Vec<String>,
    /// Whether notes sharing a scope are grouped into contiguous blocks.
    pub sort_scope: bool,
}

impl Default for SortOptions {
    /// No imposed section order; scope grouping on.
    fn default() -> (r: SortOptions)
        ensures
            r.section_order.deep_view() == Seq::<Seq<char>>::empty(),
            r.sort_scope,
    {
        let r = SortOptions { section_order: Vec::new(), sort_scope: true };
        proof {
            assert(r.section_order.deep_view() =~= Seq::<Seq<char>>::empty());
        }
        r
    }
}

/// How a document is sanitized.
#[derive(Debug, Clone)]
pub struct Options {
    pub sort_options: SortOptions,
}

impl Default for Options {
    /// The default sort options.
    fn default() -> (r: Options)
        ensures
            r.sort_options.section_order.deep_view() == Seq::<Seq<char>>::empty(),
            r.sort_options.sort_scope,
    {
        let r = Options { sort_options: SortOptions { section_order: Vec::new(), sort_scope: true } };
        proof {
            assert(r.sort_options.section_order.deep_view() =~= Seq::<Seq<char>>::empty());
        }
        r
    }
}

/// The notes with their duplicates collapsed to the first occurrence, the
/// order of first occurrence kept.
pub open spec fn dedup_notes(notes: Seq<NoteV>) -> Seq<NoteV>
    decreases notes.len(),
{
    if notes.len() == 0 {
        Seq::empty()
    } else {
        let rest = dedup_notes(notes.drop_last());
        if rest.contains(notes.last()) {
            rest
        } else {
            rest.push(notes.last())
        }
    }
}

/// Every section's notes deduplicated.
pub open spec fn dedup_sections(ss: Seq<SectionV>) -> Seq<SectionV> {
    ss.map_values(|s: SectionV| SectionV { title: s.title, notes: dedup_notes(s.notes) })
}

/// The notes whose message is not empty, order kept.
pub open spec fn keep_nonempty_notes(notes: Seq<NoteV>) -> Seq<NoteV>
    decreases notes.len(),
{
    if notes.len() == 0 {
        Seq::empty()
    } else {
        let rest = keep_nonempty_notes(notes.drop_last());
        if notes.last().message.len() > 0 {
            rest.push(notes.last())
        } else {
            rest
        }
    }
}

/// Empty-message notes dropped everywhere, and sections left with no note
/// dropped with them.
pub open spec fn remove_empty_sections(ss: Seq<SectionV>) -> Seq<SectionV>
    decreases ss.len(),
{
    if ss.len() == 0 {
        Seq::empty()
    } else {
        let rest = remove_empty_sections(ss.drop_last());
        let filtered = keep_nonempty_notes(ss.last().notes);
        if filtered.len() > 0 {
            rest.push(SectionV { title: ss.last().title, notes: filtered })
        } else {
            rest
        }
    }
}

/// The first index at or after `i` of a section titled `t`, or the length.
pub open spec fn find_title(ss: Seq<SectionV>, t: Seq<char>, i: int) -> int
    decreases ss.len() - i,
{
    if i < 0 {
        0
    } else if i >= ss.len() {
        ss.len() as int
    } else if ss[i].title == t {
        i
    } else {
        find_title(ss, t, i + 1)
    }
}

/// What `find_title` answers: nothing titled `t` stands before it, and it
/// points at a section titled `t` when it is in range.
pub proof fn lemma_find_title_bounds(ss: Seq<SectionV>, t: Seq<char>, i: int)
    requires
        0 <= i <= ss.len(),
    ensures
        i <= find_title(ss, t, i) <= ss.len(),
        forall|k: int| i <= k < find_title(ss, t, i) ==> (#[trigger] ss[k]).title != t,
        find_title(ss, t, i) < ss.len() ==> ss[find_title(ss, t, i)].title == t,
    decreases ss.len() - i,
{
    if i < ss.len() && ss[i].title != t {
        lemma_find_title_bounds(ss, t, i + 1);
    }
}

/// The sections reordered: those whose title stands in `order` first, in
/// that order, then the rest in their original relative order.
pub open spec fn reorder_sections(ss: Seq<SectionV>, order: Seq<Seq<char>>) -> Seq<SectionV>
    decreases order.len(),
{
    if order.len() == 0 {
        ss
    } else {
        let j = find_title(ss, order[0], 0);
        if j < ss.len() {
            seq![ss[j]] + reorder_sections(ss.remove(j), order.drop_first())
        } else {
            reorder_sections(ss, order.drop_first())
        }
    }
}

/// The notes without a scope, order kept.
pub open spec fn scopeless_notes(notes: Seq<NoteV>) -> Seq<NoteV>
    decreases notes.len(),
{
    if notes.len() == 0 {
        Seq::empty()
    } else {
        let rest = scopeless_notes(notes.drop_last());
        if notes.last().scope is None {
            rest.push(notes.last())
        } else {
            rest
        }
    }
}

/// The notes carrying exactly the scope `sc`, order kept.
pub open spec fn notes_with_scope(notes: Seq<NoteV>, sc: Seq<char>) -> Seq<NoteV>
    decreases notes.len(),
{
    if notes.len() == 0 {
        Seq::empty()
    } else {
        let rest = notes_with_scope(notes.drop_last(), sc);
        if notes.last().scope == Some(sc) {
            rest.push(notes.last())
        } else {
            rest
        }
    }
}

/// The distinct scopes of the notes, in order of first encounter.
pub open spec fn distinct_scopes(notes: Seq<NoteV>) -> Seq<Seq<char>>
    decreases notes.len(),
{
    if notes.len() == 0 {
        Seq::empty()
    } else {
        let rest = distinct_scopes(notes.drop_last());
        match notes.last().scope {
            Some(sc) => if rest.contains(sc) {
                rest
            } else {
                rest.push(sc)
            },
            None => rest,
        }
    }
}

/// One contiguous block of notes sharing a scope.
#[verifier::ext_equal]
pub struct BlockV {
    pub scope: Seq<char>,
    pub notes: Seq<NoteV>,
}

/// The scope blocks of the notes, in order of first encounter.
pub open spec fn blocks_of(notes: Seq<NoteV>) -> Seq<BlockV> {
    distinct_scopes(notes).map_values(
        |sc: Seq<char>| BlockV { scope: sc, notes: notes_with_scope(notes, sc) },
    )
}

/// Insert a block after every block holding at least as many notes: a stable
/// descending insertion.
pub open spec fn insert_block(sorted: Seq<BlockV>, b: BlockV) -> Seq<BlockV>
    decreases sorted.len(),
{
    if sorted.len() == 0 {
        seq![b]
    } else if sorted.last().notes.len() >= b.notes.len() {
        sorted.push(b)
    } else {
        insert_block(sorted.drop_last(), b).push(sorted.last())
    }
}

/// The blocks sorted by descending size, ties keeping first-encounter order.
pub open spec fn sort_blocks(bs: Seq<BlockV>) -> Seq<BlockV>
    decreases bs.len(),
{
    if bs.len() == 0 {
        Seq::empty()
    } else {
        insert_block(sort_blocks(bs.drop_last()), bs.last())
    }
}

/// The notes of the blocks, one block after the other.
pub open spec fn flatten_blocks(bs: Seq<BlockV>) -> Seq<NoteV>
    decreases bs.len(),
{
    if bs.len() == 0 {
        Seq::empty()
    } else {
        flatten_blocks(bs.drop_last()) + bs.last().notes
    }
}

/// Notes grouped by scope: blocks by descending size, ties in first-
/// encounter order, and the scopeless notes at the end in original order.
pub open spec fn scope_sort_notes(notes: Seq<NoteV>) -> Seq<NoteV> {
    flatten_blocks(sort_blocks(blocks_of(notes))) + scopeless_notes(notes)
}

/// The sections sorted: the title order applied, then scope grouping inside
/// each section when asked for.
pub open spec fn sort_sections(ss: Seq<SectionV>, order: Seq<Seq<char>>, sort_scope: bool) -> Seq<
    SectionV,
> {
    let reordered = reorder_sections(ss, order);
    if sort_scope {
        reordered.map_values(
            |s: SectionV| SectionV { title: s.title, notes: scope_sort_notes(s.notes) },
        )
    } else {
        reordered
    }
}

/// One release sanitized: duplicates collapsed, empties dropped, sections
/// and notes sorted. Title and surrounding text stand as they are.
pub open spec fn sanitize_release_v(r: ReleaseV, order: Seq<Seq<char>>, sort_scope: bool) -> ReleaseV {
    ReleaseV {
        title: r.title,
        header: r.header,
        sections: sort_sections(
            remove_empty_sections(dedup_sections(r.sections)),
            order,
            sort_scope,
        ),
        footer: r.footer,
    }
}

/// The whole document sanitized: the staging release and every stored
/// release sanitized independently, and a canonical empty staging release
/// put in where none was.
pub open spec fn sanitize_changelog_v(c: ChangeLogV, order: Seq<Seq<char>>, sort_scope: bool) -> ChangeLogV {
    ChangeLogV {
        header: c.header,
        unreleased: Some(
            match c.unreleased {
                Some(u) => sanitize_release_v(u, order, sort_scope),
                None => spec_default_unreleased(),
            },
        ),
        releases: c.releases.map_values(
            |e: EntryV| EntryV {
                version: e.version,
                release: sanitize_release_v(e.release, order, sort_scope),
            },
        ),
        links: c.links,
    }
}

/// Whether a note equal to `n` stands in `v`.
fn vec_contains_note(v: &Vec<ReleaseSectionNote>, n: &ReleaseSectionNote) -> (r: bool)
    ensures
        r == v@.map_values(|x: ReleaseSectionNote| x@).contains(n@),
{
    let ghost m = v@.map_values(|x: ReleaseSectionNote| x@);
    let mut i: usize = 0;
    while i < v.len()
        invariant
            0 <= i <= v@.len(),
            m == v@.map_values(|x: ReleaseSectionNote| x@),
            m.len() == v@.len(),
            forall|k: int| 0 <= k < i ==> m[k] != n@,
        decreases v@.len() - i,
    {
        if v[i].same_note(n) {
            proof {
                assert(m[i as int] == n@);
            }
            return true;
        }
        proof {
            assert(m[i as int] == v@[i as int]@);
        }
        i = i + 1;
    }
    proof {
        assert(forall|k: int| 0 <= k < m.len() ==> m[k] != n@);
    }
    false
}

/// The notes deduplicated, first occurrences kept in order.
fn dedup_notes_vec(notes: &Vec<ReleaseSectionNote>) -> (r: Vec<ReleaseSectionNote>)
    ensures
        r@.map_values(|x: ReleaseSectionNote| x@) == dedup_notes(
            notes@.map_values(|x: ReleaseSectionNote| x@),
        ),
{
    let ghost m = notes@.map_values(|x: ReleaseSectionNote| x@);
    let mut out: Vec<ReleaseSectionNote> = Vec::new();
    let mut i: usize = 0;
    proof {
        assert(out@.map_values(|x: ReleaseSectionNote| x@) =~= dedup_notes(m.take(0)));
    }
    while i < notes.len()
        invariant
            0 <= i <= notes@.len(),
            m == notes@.map_values(|x: ReleaseSectionNote| x@),
            m.len() == notes@.len(),
            out@.map_values(|x: ReleaseSectionNote| x@) == dedup_notes(m.take(i as int)),
        decreases notes@.len() - i,
    {
        proof {
            assert(m.take(i + 1).drop_last() =~= m.take(i as int));
            assert(m.take(i + 1).last() == m[i as int]);
            assert(m[i as int] == notes@[i as int]@);
        }
        if !vec_contains_note(&out, &notes[i]) {
            out.push(notes[i].duplicate());
            proof {
                assert(out@.map_values(|x: ReleaseSectionNote| x@) =~= dedup_notes(
                    m.take(i as int),
                ).push(m[i as int]));
            }
        }
        i = i + 1;
    }
    proof {
        assert(m.take(i as int) =~= m);
    }
    out
}

/// The notes whose message is not empty, in order.
fn keep_nonempty_vec(notes: &Vec<ReleaseSectionNote>) -> (r: Vec<ReleaseSectionNote>)
    ensures
        r@.map_values(|x: ReleaseSectionNote| x@) == keep_nonempty_notes(
            notes@.map_values(|x: ReleaseSectionNote| x@),
        ),
{
    let ghost m = notes@.map_values(|x: ReleaseSectionNote| x@);
    let mut out: Vec<ReleaseSectionNote> = Vec::new();
    let mut i: usize = 0;
    proof {
        assert(out@.map_values(|x: ReleaseSectionNote| x@) =~= keep_nonempty_notes(m.take(0)));
    }
    while i < notes.len()
        invariant
            0 <= i <= notes@.len(),
            m == notes@.map_values(|x: ReleaseSectionNote| x@),
            m.len() == notes@.len(),
            out@.map_values(|x: ReleaseSectionNote| x@) == keep_nonempty_notes(m.take(i as int)),
        decreases notes@.len() - i,
    {
        proof {
            assert(m.take(i + 1).drop_last() =~= m.take(i as int));
            assert(m.take(i + 1).last() == m[i as int]);
            assert(m[i as int] == notes@[i as int]@);
        }
        if !notes[i].message.as_str().is_empty() {
            out.push(notes[i].duplicate());
            proof {
                assert(out@.map_values(|x: ReleaseSectionNote| x@) =~= keep_nonempty_notes(
                    m.take(i as int),
                ).push(m[i as int]));
            }
        }
        i = i + 1;
    }
    proof {
        assert(m.take(i as int) =~= m);
    }
    out
}

impl Release {
    /// Collapse duplicate notes within each section to their first
    /// occurrence.
    pub fn deduplicate(&mut self)
        ensures
            final(self)@ == (ReleaseV { sections: dedup_sections(old(self)@.sections), ..old(
                self,
            )@ }),
    {
        let ghost orig = self@.sections;
        let mut out: Vec<ReleaseSection> = Vec::new();
        let mut i: usize = 0;
        while i < self.note_sections.len()
            invariant
                0 <= i <= self.note_sections@.len(),
                orig == self@.sections,
                orig.len() == self.note_sections@.len(),
                out@.map_values(|s: ReleaseSection| s@) == dedup_sections(orig.take(i as int)),
            decreases self.note_sections@.len() - i,
        {
            let sec = &self.note_sections[i];
            let deduped = ReleaseSection { title: sec.title.clone(), notes: dedup_notes_vec(
                &sec.notes,
            ) };
            proof {
                assert(self.note_sections@[i as int]@ == orig[i as int]);
                assert(deduped@ =~= (SectionV {
                    title: orig[i as int].title,
                    notes: dedup_notes(orig[i as int].notes),
                }));
            }
            let ghost prev_map = out@.map_values(|s: ReleaseSection| s@);
            let ghost pushed = deduped@;
            out.push(deduped);
            proof {
                assert(out@.map_values(|s: ReleaseSection| s@) =~= prev_map.push(pushed));
                assert(prev_map.push(pushed) =~= dedup_sections(orig.take(i + 1)));
            }
            i = i + 1;
        }
        proof {
            assert(orig.take(i as int) =~= orig);
        }
        self.note_sections = out;
        proof {
            assert(self@ =~= (ReleaseV { sections: dedup_sections(orig), ..old(self)@ }));
        }
    }

    /// Drop notes with an empty message, and sections left with no note.
    pub fn remove_empty(&mut self)
        ensures
            final(self)@ == (ReleaseV {
                sections: remove_empty_sections(old(self)@.sections),
                ..old(self)@
            }),
    {
        let ghost orig = self@.sections;
        let mut out: Vec<ReleaseSection> = Vec::new();
        let mut i: usize = 0;
        proof {
            assert(out@.map_values(|s: ReleaseSection| s@) =~= remove_empty_sections(
                orig.take(0),
            ));
        }
        while i < self.note_sections.len()
            invariant
                0 <= i <= self.note_sections@.len(),
                orig == self@.sections,
                orig.len() == self.note_sections@.len(),
                out@.map_values(|s: ReleaseSection| s@) == remove_empty_sections(
                    orig.take(i as int),
                ),
            decreases self.note_sections@.len() - i,
        {
            proof {
                assert(orig.take(i + 1).drop_last() =~= orig.take(i as int));
                assert(orig.take(i + 1).last() == orig[i as int]);
                assert(self.note_sections@[i as int]@ == orig[i as int]);
            }
            let sec = &self.note_sections[i];
            let filtered = keep_nonempty_vec(&sec.notes);
            if filtered.len() > 0 {
                let kept = ReleaseSection { title: sec.title.clone(), notes: filtered };
                proof {
                    assert(kept@ =~= (SectionV {
                        title: orig[i as int].title,
                        notes: keep_nonempty_notes(orig[i as int].notes),
                    }));
                }
                out.push(kept);
                proof {
                    assert(out@.map_values(|s: ReleaseSection| s@) =~= remove_empty_sections(
                        orig.take(i as int),
                    ).push(
                        SectionV {
                            title: orig[i as int].title,
                            notes: keep_nonempty_notes(orig[i as int].notes),
                        },
                    ));
                }
            }
            i = i + 1;
        }
        proof {
            assert(orig.take(i as int) =~= orig);
        }
        self.note_sections = out;
        proof {
            assert(self@ =~= (ReleaseV { sections: remove_empty_sections(orig), ..old(self)@ }));
        }
    }
}

/// The first index at or after `from` of a section titled like `t`, if any.
pub(crate) fn find_title_vec(ss: &Vec<ReleaseSection>, t: &str) -> (r: Option<usize>)
    ensures
        ({
            let m = ss@.map_values(|s: ReleaseSection| s@);
            let j = find_title(m, t@, 0);
            match r {
                Some(idx) => j == idx && j < m.len(),
                None => j == m.len(),
            }
        }),
{
    let ghost m = ss@.map_values(|s: ReleaseSection| s@);
    let mut i: usize = 0;
    while i < ss.len()
        invariant
            0 <= i <= ss@.len(),
            m == ss@.map_values(|s: ReleaseSection| s@),
            m.len() == ss@.len(),
            find_title(m, t@, 0) == find_title(m, t@, i as int),
        decreases ss@.len() - i,
    {
        proof {
            assert(m[i as int] == ss@[i as int]@);
        }
        if str_eq(ss[i].title.as_str(), t) {
            return Some(i);
        }
        i = i + 1;
    }
    None
}

/// The sections reordered by the given title order.
fn reorder_sections_vec(sections: &Vec<ReleaseSection>, order: &Vec<String>) -> (r: Vec<
    ReleaseSection,
>)
    ensures
        r@.map_values(|s: ReleaseSection| s@) == reorder_sections(
            sections@.map_values(|s: ReleaseSection| s@),
            order.deep_view(),
        ),
{
    let ghost orig = sections@.map_values(|s: ReleaseSection| s@);
    let ghost ord = order.deep_view();
    let mut remaining: Vec<ReleaseSection> = Vec::new();
    let mut c: usize = 0;
    while c < sections.len()
        invariant
            0 <= c <= sections@.len(),
            orig == sections@.map_values(|s: ReleaseSection| s@),
            orig.len() == sections@.len(),
            remaining@.map_values(|s: ReleaseSection| s@) == orig.take(c as int),
        decreases sections@.len() - c,
    {
        let ghost prev = remaining@.map_values(|s: ReleaseSection| s@);
        remaining.push(sections[c].duplicate());
        proof {
            assert(orig[c as int] == sections@[c as int]@);
            assert(remaining@.map_values(|s: ReleaseSection| s@) =~= prev.push(orig[c as int]));
            assert(prev.push(orig[c as int]) =~= orig.take(c + 1));
        }
        c = c + 1;
    }
    proof {
        assert(orig.take(c as int) =~= orig);
    }
    let mut sorted: Vec<ReleaseSection> = Vec::new();
    let mut k: usize = 0;
    proof {
        assert(ord.skip(0) =~= ord);
        assert(Seq::<SectionV>::empty() + reorder_sections(orig, ord) =~= reorder_sections(
            orig,
            ord,
        ));
        assert(sorted@.map_values(|s: ReleaseSection| s@) =~= Seq::<SectionV>::empty());
    }
    while k < order.len()
        invariant
            0 <= k <= order@.len(),
            ord == order.deep_view(),
            ord.len() == order@.len(),
            reorder_sections(orig, ord) == sorted@.map_values(|s: ReleaseSection| s@)
                + reorder_sections(
                remaining@.map_values(|s: ReleaseSection| s@),
                ord.skip(k as int),
            ),
        decreases order@.len() - k,
    {
        let ghost rem = remaining@.map_values(|s: ReleaseSection| s@);
        proof {
            assert(ord.skip(k as int)[0] == ord[k as int]);
            assert(ord.skip(k as int).drop_first() =~= ord.skip(k + 1));
            assert(ord[k as int] == order@[k as int]@);
        }
        match find_title_vec(&remaining, order[k].as_str()) {
            Some(j) => {
                let sec = remaining.remove(j);
                sorted.push(sec);
                proof {
                    assert(remaining@.map_values(|s: ReleaseSection| s@) =~= rem.remove(j as int));
                    assert(sorted@.map_values(|s: ReleaseSection| s@).drop_last() =~= sorted@
                        .map_values(|s: ReleaseSection| s@).drop_last());
                    assert(sorted@.map_values(|s: ReleaseSection| s@) =~= (sorted@.map_values(
                        |s: ReleaseSection| s@,
                    ).drop_last()).push(rem[j as int]));
                    assert(reorder_sections(rem, ord.skip(k as int)) == seq![rem[j as int]]
                        + reorder_sections(rem.remove(j as int), ord.skip(k + 1)));
                    assert(sorted@.map_values(|s: ReleaseSection| s@).drop_last() + (seq![
                        rem[j as int],
                    ] + reorder_sections(rem.remove(j as int), ord.skip(k + 1))) =~= sorted@
                        .map_values(|s: ReleaseSection| s@) + reorder_sections(
                        rem.remove(j as int),
                        ord.skip(k + 1),
                    ));
                }
            },
            None => {
                proof {
                    assert(reorder_sections(rem, ord.skip(k as int)) == reorder_sections(
                        rem,
                        ord.skip(k + 1),
                    ));
                }
            },
        }
        k = k + 1;
    }
    proof {
        assert(ord.skip(k as int) =~= Seq::<Seq<char>>::empty());
        assert(reorder_sections(remaining@.map_values(|s: ReleaseSection| s@), ord.skip(k as int))
            == remaining@.map_values(|s: ReleaseSection| s@));
    }
    let mut i: usize = 0;
    let ghost rem = remaining@.map_values(|s: ReleaseSection| s@);
    let ghost base = sorted@.map_values(|s: ReleaseSection| s@);
    while i < remaining.len()
        invariant
            0 <= i <= remaining@.len(),
            rem == remaining@.map_values(|s: ReleaseSection| s@),
            rem.len() == remaining@.len(),
            sorted@.map_values(|s: ReleaseSection| s@) == base + rem.take(i as int),
        decreases remaining@.len() - i,
    {
        sorted.push(remaining[i].duplicate());
        proof {
            assert(rem[i as int] == remaining@[i as int]@);
            assert(rem.take(i + 1) =~= rem.take(i as int).push(rem[i as int]));
            assert(sorted@.map_values(|s: ReleaseSection| s@) =~= (base + rem.take(
                i as int,
            )).push(rem[i as int]));
            assert((base + rem.take(i as int)).push(rem[i as int]) =~= base + rem.take(i + 1));
        }
        i = i + 1;
    }
    proof {
        assert(rem.take(i as int) =~= rem);
        assert(sorted@.map_values(|s: ReleaseSection| s@) =~= reorder_sections(orig, ord));
    }
    sorted
}

/// One contiguous block of notes sharing a scope, while grouping.
struct ScopeBlock {
    scope: String,
    notes: Vec<ReleaseSectionNote>,
}

impl View for ScopeBlock {
    type V = BlockV;

    closed spec fn view(&self) -> BlockV {
        BlockV {
            scope: self.scope@,
            notes: self.notes@.map_values(|n: ReleaseSectionNote| n@),
        }
    }
}

/// Whether a text equal to `s` stands in `v`.
fn vec_contains_string(v: &Vec<String>, s: &str) -> (r: bool)
    ensures
        r == v.deep_view().contains(s@),
{
    let ghost m = v.deep_view();
    let mut i: usize = 0;
    while i < v.len()
        invariant
            0 <= i <= v@.len(),
            m == v.deep_view(),
            m.len() == v@.len(),
            forall|k: int| 0 <= k < i ==> m[k] != s@,
        decreases v@.len() - i,
    {
        proof {
            assert(m[i as int] == v@[i as int]@);
        }
        if str_eq(v[i].as_str(), s) {
            return true;
        }
        i = i + 1;
    }
    proof {
        assert(forall|k: int| 0 <= k < m.len() ==> m[k] != s@);
    }
    false
}

/// The distinct scopes of the notes, in order of first encounter.
fn collect_scopes(notes: &Vec<ReleaseSectionNote>) -> (r: Vec<String>)
    ensures
        r.deep_view() == distinct_scopes(notes@.map_values(|n: ReleaseSectionNote| n@)),
{
    let ghost m = notes@.map_values(|n: ReleaseSectionNote| n@);
    let mut out: Vec<String> = Vec::new();
    let mut i: usize = 0;
    proof {
        assert(out.deep_view() =~= distinct_scopes(m.take(0)));
    }
    while i < notes.len()
        invariant
            0 <= i <= notes@.len(),
            m == notes@.map_values(|n: ReleaseSectionNote| n@),
            m.len() == notes@.len(),
            out.deep_view() == distinct_scopes(m.take(i as int)),
        decreases notes@.len() - i,
    {
        proof {
            assert(m.take(i + 1).drop_last() =~= m.take(i as int));
            assert(m.take(i + 1).last() == m[i as int]);
            assert(m[i as int] == notes@[i as int]@);
        }
        match &notes[i].scope {
            Some(sc) => {
                if !vec_contains_string(&out, sc.as_str()) {
                    let ghost prev = out.deep_view();
                    out.push(sc.clone());
                    proof {
                        assert(out.deep_view() =~= prev.push(sc@));
                    }
                }
            },
            None => {},
        }
        i = i + 1;
    }
    proof {
        assert(m.take(i as int) =~= m);
    }
    out
}

/// The notes carrying exactly the scope `sc`, in order.
fn collect_with_scope(notes: &Vec<ReleaseSectionNote>, sc: &str) -> (r: Vec<ReleaseSectionNote>)
    ensures
        r@.map_values(|n: ReleaseSectionNote| n@) == notes_with_scope(
            notes@.map_values(|n: ReleaseSectionNote| n@),
            sc@,
        ),
{
    let ghost m = notes@.map_values(|n: ReleaseSectionNote| n@);
    let mut out: Vec<ReleaseSectionNote> = Vec::new();
    let mut i: usize = 0;
    proof {
        assert(out@.map_values(|n: ReleaseSectionNote| n@) =~= notes_with_scope(m.take(0), sc@));
    }
    while i < notes.len()
        invariant
            0 <= i <= notes@.len(),
            m == notes@.map_values(|n: ReleaseSectionNote| n@),
            m.len() == notes@.len(),
            out@.map_values(|n: ReleaseSectionNote| n@) == notes_with_scope(
                m.take(i as int),
                sc@,
            ),
        decreases notes@.len() - i,
    {
        proof {
            assert(m.take(i + 1).drop_last() =~= m.take(i as int));
            assert(m.take(i + 1).last() == m[i as int]);
            assert(m[i as int] == notes@[i as int]@);
        }
        let keep = match &notes[i].scope {
            Some(s) => str_eq(s.as_str(), sc),
            None => false,
        };
        if keep {
            let ghost prev = out@.map_values(|n: ReleaseSectionNote| n@);
            out.push(notes[i].duplicate());
            proof {
                assert(out@.map_values(|n: ReleaseSectionNote| n@) =~= prev.push(m[i as int]));
            }
        }
        i = i + 1;
    }
    proof {
        assert(m.take(i as int) =~= m);
    }
    out
}

/// The notes without a scope, in order.
fn collect_scopeless(notes: &Vec<ReleaseSectionNote>) -> (r: Vec<ReleaseSectionNote>)
    ensures
        r@.map_values(|n: ReleaseSectionNote| n@) == scopeless_notes(
            notes@.map_values(|n: ReleaseSectionNote| n@),
        ),
{
    let ghost m = notes@.map_values(|n: ReleaseSectionNote| n@);
    let mut out: Vec<ReleaseSectionNote> = Vec::new();
    let mut i: usize = 0;
    proof {
        assert(out@.map_values(|n: ReleaseSectionNote| n@) =~= scopeless_notes(m.take(0)));
    }
    while i < notes.len()
        invariant
            0 <= i <= notes@.len(),
            m == notes@.map_values(|n: ReleaseSectionNote| n@),
            m.len() == notes@.len(),
            out@.map_values(|n: ReleaseSectionNote| n@) == scopeless_notes(m.take(i as int)),
        decreases notes@.len() - i,
    {
        proof {
            assert(m.take(i + 1).drop_last() =~= m.take(i as int));
            assert(m.take(i + 1).last() == m[i as int]);
            assert(m[i as int] == notes@[i as int]@);
        }
        if notes[i].scope.is_none() {
            let ghost prev = out@.map_values(|n: ReleaseSectionNote| n@);
            out.push(notes[i].duplicate());
            proof {
                assert(out@.map_values(|n: ReleaseSectionNote| n@) =~= prev.push(m[i as int]));
            }
        }
        i = i + 1;
    }
    proof {
        assert(m.take(i as int) =~= m);
    }
    out
}

/// An owned copy of a list of notes.
fn dup_note_list(v: &Vec<ReleaseSectionNote>) -> (r: Vec<ReleaseSectionNote>)
    ensures
        r@.map_values(|n: ReleaseSectionNote| n@) == v@.map_values(|n: ReleaseSectionNote| n@),
{
    let ghost m = v@.map_values(|n: ReleaseSectionNote| n@);
    let mut out: Vec<ReleaseSectionNote> = Vec::new();
    let mut i: usize = 0;
    proof {
        assert(out@.map_values(|n: ReleaseSectionNote| n@) =~= m.take(0));
    }
    while i < v.len()
        invariant
            0 <= i <= v@.len(),
            m == v@.map_values(|n: ReleaseSectionNote| n@),
            m.len() == v@.len(),
            out@.map_values(|n: ReleaseSectionNote| n@) == m.take(i as int),
        decreases v@.len() - i,
    {
        let ghost prev = out@.map_values(|n: ReleaseSectionNote| n@);
        out.push(v[i].duplicate());
        proof {
            assert(m[i as int] == v@[i as int]@);
            assert(out@.map_values(|n: ReleaseSectionNote| n@) =~= prev.push(m[i as int]));
            assert(prev.push(m[i as int]) =~= m.take(i + 1));
        }
        i = i + 1;
    }
    proof {
        assert(m.take(i as int) =~= m);
    }
    out
}

/// An identical block value.
fn dup_block(b: &ScopeBlock) -> (r: ScopeBlock)
    ensures
        r@ == b@,
{
    let r = ScopeBlock { scope: b.scope.clone(), notes: dup_note_list(&b.notes) };
    proof {
        assert(r@ =~= b@);
    }
    r
}

/// Place a block after every block holding at least as many notes.
fn insert_block_vec(sorted: Vec<ScopeBlock>, b: ScopeBlock) -> (r: Vec<ScopeBlock>)
    ensures
        r@.map_values(|x: ScopeBlock| x@) == insert_block(
            sorted@.map_values(|x: ScopeBlock| x@),
            b@,
        ),
    decreases sorted@.len(),
{
    let ghost m = sorted@.map_values(|x: ScopeBlock| x@);
    let mut sorted = sorted;
    if sorted.len() == 0 {
        sorted.push(b);
        proof {
            assert(sorted@.map_values(|x: ScopeBlock| x@) =~= insert_block(m, b@));
        }
        sorted
    } else if sorted[sorted.len() - 1].notes.len() >= b.notes.len() {
        proof {
            assert(m.last() == sorted@[sorted@.len() - 1]@);
        }
        let ghost prev = sorted@.map_values(|x: ScopeBlock| x@);
        let ghost bv = b@;
        sorted.push(b);
        proof {
            assert(sorted@.map_values(|x: ScopeBlock| x@) =~= prev.push(bv));
        }
        sorted
    } else {
        proof {
            assert(m.last() == sorted@[sorted@.len() - 1]@);
        }
        let last = sorted.pop().unwrap();
        proof {
            assert(sorted@.map_values(|x: ScopeBlock| x@) =~= m.drop_last());
        }
        let mut r = insert_block_vec(sorted, b);
        let ghost prev = r@.map_values(|x: ScopeBlock| x@);
        let ghost lv = last@;
        r.push(last);
        proof {
            assert(r@.map_values(|x: ScopeBlock| x@) =~= prev.push(lv));
        }
        r
    }
}

/// Notes grouped by scope: blocks by descending size, ties keeping first-
/// encounter order, scopeless notes last.
fn scope_sort_vec(notes: &Vec<ReleaseSectionNote>) -> (r: Vec<ReleaseSectionNote>)
    ensures
        r@.map_values(|n: ReleaseSectionNote| n@) == scope_sort_notes(
            notes@.map_values(|n: ReleaseSectionNote| n@),
        ),
{
    let ghost m = notes@.map_values(|n: ReleaseSectionNote| n@);
    let scopes = collect_scopes(notes);
    let mut blocks: Vec<ScopeBlock> = Vec::new();
    let mut k: usize = 0;
    while k < scopes.len()
        invariant
            0 <= k <= scopes@.len(),
            m == notes@.map_values(|n: ReleaseSectionNote| n@),
            scopes.deep_view() == distinct_scopes(m),
            scopes.deep_view().len() == scopes@.len(),
            blocks@.map_values(|x: ScopeBlock| x@) == blocks_of(m).take(k as int),
        decreases scopes@.len() - k,
    {
        let block_notes = collect_with_scope(notes, scopes[k].as_str());
        let blk = ScopeBlock { scope: scopes[k].clone(), notes: block_notes };
        let ghost prev = blocks@.map_values(|x: ScopeBlock| x@);
        let ghost bv = blk@;
        blocks.push(blk);
        proof {
            assert(scopes@[k as int]@ == scopes.deep_view()[k as int]);
            assert(bv =~= blocks_of(m)[k as int]);
            assert(blocks@.map_values(|x: ScopeBlock| x@) =~= prev.push(bv));
            assert(prev.push(bv) =~= blocks_of(m).take(k + 1));
        }
        k = k + 1;
    }
    proof {
        assert(blocks_of(m).take(k as int) =~= blocks_of(m));
    }
    let ghost bs = blocks_of(m);
    let mut sorted: Vec<ScopeBlock> = Vec::new();
    let mut k: usize = 0;
    proof {
        assert(sorted@.map_values(|x: ScopeBlock| x@) =~= sort_blocks(bs.take(0)));
    }
    while k < blocks.len()
        invariant
            0 <= k <= blocks@.len(),
            bs == blocks_of(m),
            blocks@.map_values(|x: ScopeBlock| x@) == bs,
            bs.len() == blocks@.len(),
            sorted@.map_values(|x: ScopeBlock| x@) == sort_blocks(bs.take(k as int)),
        decreases blocks@.len() - k,
    {
        proof {
            assert(blocks@[k as int]@ == bs[k as int]);
            assert(bs.take(k + 1).drop_last() =~= bs.take(k as int));
            assert(bs.take(k + 1).last() == bs[k as int]);
        }
        let blk = dup_block(&blocks[k]);
        sorted = insert_block_vec(sorted, blk);
        k = k + 1;
    }
    proof {
        assert(bs.take(k as int) =~= bs);
    }
    let ghost sorted_v = sort_blocks(bs);
    let mut out: Vec<ReleaseSectionNote> = Vec::new();
    let mut k: usize = 0;
    proof {
        assert(out@.map_values(|n: ReleaseSectionNote| n@) =~= flatten_blocks(sorted_v.take(0)));
    }
    while k < sorted.len()
        invariant
            0 <= k <= sorted@.len(),
            sorted_v == sort_blocks(bs),
            sorted@.map_values(|x: ScopeBlock| x@) == sorted_v,
            sorted_v.len() == sorted@.len(),
            out@.map_values(|n: ReleaseSectionNote| n@) == flatten_blocks(sorted_v.take(k as int)),
        decreases sorted@.len() - k,
    {
        let ghost base = out@.map_values(|n: ReleaseSectionNote| n@);
        let blk = &sorted[k];
        let ghost bnotes = blk@.notes;
        let mut j: usize = 0;
        proof {
            assert(sorted@[k as int]@ == sorted_v[k as int]);
            assert(base + bnotes.take(0) =~= base);
        }
        while j < blk.notes.len()
            invariant
                0 <= j <= blk.notes@.len(),
                bnotes == blk@.notes,
                bnotes.len() == blk.notes@.len(),
                out@.map_values(|n: ReleaseSectionNote| n@) == base + bnotes.take(j as int),
            decreases blk.notes@.len() - j,
        {
            let ghost prev = out@.map_values(|n: ReleaseSectionNote| n@);
            out.push(blk.notes[j].duplicate());
            proof {
                assert(bnotes[j as int] == blk.notes@[j as int]@);
                assert(out@.map_values(|n: ReleaseSectionNote| n@) =~= prev.push(
                    bnotes[j as int],
                ));
                assert(prev.push(bnotes[j as int]) =~= base + bnotes.take(j + 1));
            }
            j = j + 1;
        }
        proof {
            assert(bnotes.take(j as int) =~= bnotes);
            assert(sorted_v.take(k + 1).drop_last() =~= sorted_v.take(k as int));
            assert(sorted_v.take(k + 1).last() == sorted_v[k as int]);
            assert(out@.map_values(|n: ReleaseSectionNote| n@) =~= flatten_blocks(
                sorted_v.take(k + 1),
            ));
        }
        k = k + 1;
    }
    proof {
        assert(sorted_v.take(k as int) =~= sorted_v);
    }
    let rest = collect_scopeless(notes);
    let ghost base = out@.map_values(|n: ReleaseSectionNote| n@);
    let ghost restm = scopeless_notes(m);
    let mut j: usize = 0;
    proof {
        assert(base + restm.take(0) =~= base);
    }
    while j < rest.len()
        invariant
            0 <= j <= rest@.len(),
            restm == scopeless_notes(m),
            rest@.map_values(|n: ReleaseSectionNote| n@) == restm,
            restm.len() == rest@.len(),
            out@.map_values(|n: ReleaseSectionNote| n@) == base + restm.take(j as int),
        decreases rest@.len() - j,
    {
        let ghost prev = out@.map_values(|n: ReleaseSectionNote| n@);
        out.push(rest[j].duplicate());
        proof {
            assert(restm[j as int] == rest@[j as int]@);
            assert(out@.map_values(|n: ReleaseSectionNote| n@) =~= prev.push(restm[j as int]));
            assert(prev.push(restm[j as int]) =~= base + restm.take(j + 1));
        }
        j = j + 1;
    }
    proof {
        assert(restm.take(j as int) =~= restm);
        assert(out@.map_values(|n: ReleaseSectionNote| n@) =~= scope_sort_notes(m));
    }
    out
}

impl Release {
    /// Reorder the sections by the given title order, and group each
    /// section's notes by scope when asked to.
    pub fn sort_notes(&mut self, options: &SortOptions)
        ensures
            final(self)@ == (ReleaseV {
                sections: sort_sections(
                    old(self)@.sections,
                    options.section_order.deep_view(),
                    options.sort_scope,
                ),
                ..old(self)@
            }),
    {
        let ghost orig = self@.sections;
        let ghost ord = options.section_order.deep_view();
        let mut reordered = reorder_sections_vec(&self.note_sections, &options.section_order);
        if options.sort_scope {
            let ghost re = reorder_sections(orig, ord);
            let mut out: Vec<ReleaseSection> = Vec::new();
            let mut i: usize = 0;
            let ghost target = re.map_values(
                |s: SectionV| SectionV { title: s.title, notes: scope_sort_notes(s.notes) },
            );
            proof {
                assert(out@.map_values(|s: ReleaseSection| s@) =~= target.take(0));
            }
            while i < reordered.len()
                invariant
                    0 <= i <= reordered@.len(),
                    re == reorder_sections(orig, ord),
                    reordered@.map_values(|s: ReleaseSection| s@) == re,
                    re.len() == reordered@.len(),
                    target == re.map_values(
                        |s: SectionV| SectionV {
                            title: s.title,
                            notes: scope_sort_notes(s.notes),
                        },
                    ),
                    target.len() == re.len(),
                    out@.map_values(|s: ReleaseSection| s@) == target.take(i as int),
                decreases reordered@.len() - i,
            {
                let sec = &reordered[i];
                let sorted_sec = ReleaseSection {
                    title: sec.title.clone(),
                    notes: scope_sort_vec(&sec.notes),
                };
                proof {
                    assert(reordered@[i as int]@ == re[i as int]);
                    assert(sorted_sec@ =~= target[i as int]);
                }
                let ghost prev = out@.map_values(|s: ReleaseSection| s@);
                let ghost sv = sorted_sec@;
                out.push(sorted_sec);
                proof {
                    assert(out@.map_values(|s: ReleaseSection| s@) =~= prev.push(sv));
                    assert(prev.push(sv) =~= target.take(i + 1));
                }
                i = i + 1;
            }
            proof {
                assert(target.take(i as int) =~= target);
            }
            self.note_sections = out;
            proof {
                assert(self@ =~= (ReleaseV {
                    sections: sort_sections(orig, ord, options.sort_scope),
                    ..old(self)@
                }));
            }
        } else {
            self.note_sections = reordered;
            proof {
                assert(self@ =~= (ReleaseV {
                    sections: sort_sections(orig, ord, options.sort_scope),
                    ..old(self)@
                }));
            }
        }
    }

    /// One release sanitized in place: duplicates collapsed, empties
    /// dropped, sections and notes sorted.
    pub fn sanitize(&mut self, options: &SortOptions)
        ensures
            final(self)@ == sanitize_release_v(
                old(self)@,
                options.section_order.deep_view(),
                options.sort_scope,
            ),
    {
        self.deduplicate();
        self.remove_empty();
        self.sort_notes(options);
    }
}

impl ChangeLog {
    /// Sanitize the staging release and every stored release, and put a
    /// canonical empty staging release in where none was.
    pub fn sanitize(&mut self, options: &Options)
        ensures
            final(self)@ == sanitize_changelog_v(
                old(self)@,
                options.sort_options.section_order.deep_view(),
                options.sort_options.sort_scope,
            ),
    {
        let ghost ord = options.sort_options.section_order.deep_view();
        let ghost scope = options.sort_options.sort_scope;
        let unrel = self.unreleased.take();
        match unrel {
            Some(mut u) => {
                u.sanitize(&options.sort_options);
                self.unreleased = Some(u);
            },
            None => {
                self.unreleased = Some(default_unreleased());
            },
        }
        let ghost orig = old(self)@.releases;
        let ghost target = orig.map_values(
            |e: EntryV| EntryV { version: e.version, release: sanitize_release_v(e.release, ord, scope) },
        );
        let mut out: Vec<crate::model::ReleaseEntry> = Vec::new();
        let mut i: usize = 0;
        proof {
            assert(out@.map_values(|e: crate::model::ReleaseEntry| e@) =~= target.take(0));
        }
        while i < self.releases.len()
            invariant
                0 <= i <= self.releases@.len(),
                self.releases@ == old(self).releases@,
                orig == old(self)@.releases,
                orig.len() == self.releases@.len(),
                target == orig.map_values(
                    |e: EntryV| EntryV {
                        version: e.version,
                        release: sanitize_release_v(e.release, ord, scope),
                    },
                ),
                target.len() == orig.len(),
                ord == options.sort_options.section_order.deep_view(),
                scope == options.sort_options.sort_scope,
                out@.map_values(|e: crate::model::ReleaseEntry| e@) == target.take(i as int),
            decreases self.releases@.len() - i,
        {
            let entry = &self.releases[i];
            let mut release = entry.release.duplicate();
            release.sanitize(&options.sort_options);
            let new_entry = crate::model::ReleaseEntry {
                version: entry.version.duplicate(),
                release,
            };
            proof {
                assert(self.releases@[i as int]@ == orig[i as int]);
                assert(new_entry@ =~= target[i as int]);
            }
            let ghost prev = out@.map_values(|e: crate::model::ReleaseEntry| e@);
            let ghost nv = new_entry@;
            out.push(new_entry);
            proof {
                assert(out@.map_values(|e: crate::model::ReleaseEntry| e@) =~= prev.push(nv));
                assert(prev.push(nv) =~= target.take(i + 1));
            }
            i = i + 1;
        }
        proof {
            assert(target.take(i as int) =~= target);
        }
        self.releases = out;
        proof {
            assert(self@ =~= sanitize_changelog_v(old(self)@, ord, scope));
        }
    }

    /// Collapse duplicate notes in every stored release.
    pub fn deduplicate(&mut self)
        ensures
            final(self)@ == (ChangeLogV {
                releases: old(self)@.releases.map_values(
                    |e: EntryV| EntryV {
                        version: e.version,
                        release: ReleaseV {
                            sections: dedup_sections(e.release.sections),
                            ..e.release
                        },
                    },
                ),
                ..old(self)@
            }),
    {
        let ghost orig = old(self)@.releases;
        let ghost target = orig.map_values(
            |e: EntryV| EntryV {
                version: e.version,
                release: ReleaseV { sections: dedup_sections(e.release.sections), ..e.release },
            },
        );
        let mut out: Vec<crate::model::ReleaseEntry> = Vec::new();
        let mut i: usize = 0;
        proof {
            assert(out@.map_values(|e: crate::model::ReleaseEntry| e@) =~= target.take(0));
        }
        while i < self.releases.len()
            invariant
                0 <= i <= self.releases@.len(),
                self.releases@ == old(self).releases@,
                orig == old(self)@.releases,
                orig.len() == self.releases@.len(),
                target == orig.map_values(
                    |e: EntryV| EntryV {
                        version: e.version,
                        release: ReleaseV {
                            sections: dedup_sections(e.release.sections),
                            ..e.release
                        },
                    },
                ),
                target.len() == orig.len(),
                out@.map_values(|e: crate::model::ReleaseEntry| e@) == target.take(i as int),
            decreases self.releases@.len() - i,
        {
            let entry = &self.releases[i];
            let mut release = entry.release.duplicate();
            release.deduplicate();
            let new_entry = crate::model::ReleaseEntry {
                version: entry.version.duplicate(),
                release,
            };
            proof {
                assert(self.releases@[i as int]@ == orig[i as int]);
                assert(new_entry@ =~= target[i as int]);
            }
            let ghost prev = out@.map_values(|e: crate::model::ReleaseEntry| e@);
            let ghost nv = new_entry@;
            out.push(new_entry);
            proof {
                assert(out@.map_values(|e: crate::model::ReleaseEntry| e@) =~= prev.push(nv));
                assert(prev.push(nv) =~= target.take(i + 1));
            }
            i = i + 1;
        }
        proof {
            assert(target.take(i as int) =~= target);
        }
        self.releases = out;
        proof {
            assert(self@ =~= (ChangeLogV { releases: target, ..old(self)@ }));
        }
    }
}

} // verus!
