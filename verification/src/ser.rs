//! The formatter: the document model serialized back to canonical text.
//! Constructs are always emitted in one fixed order, non-empty blocks are
//! separated by exactly one blank line, and the whole rendering is a
//! function of the model alone.

use vstd::prelude::*;

use crate::model::{
    ChangeLog, ChangeLogV, EntryV, LinkV, NoteV, Release, ReleaseSection, ReleaseSectionNote,
    ReleaseV, SectionV, TitleV,
};

verus! {

/// How a whole document is rendered.
#[derive(Debug, Clone)]
pub struct Options {
    pub release_option: OptionsRelease,
}

/// How one release is rendered: whether its title line is emitted at all
/// (switched off when a bare release is shown without its metadata).
#[derive(Debug, Clone)]
pub struct OptionsRelease {
    pub serialize_title: bool,
}

impl Default for OptionsRelease {
    /// Title emission on.
    fn default() -> (r: OptionsRelease)
        ensures
            r.serialize_title,
    {
        OptionsRelease { serialize_title: true }
    }
}

impl Default for Options {
    /// Title emission on.
    fn default() -> (r: Options)
        ensures
            r.release_option.serialize_title,
    {
        Options { release_option: OptionsRelease { serialize_title: true } }
    }
}

/// The head line of a note: `- scope: message` or `- message`.
pub open spec fn fmt_note_head(n: NoteV) -> Seq<char> {
    match n.scope {
        Some(sc) => "- "@ + sc + ": "@ + n.message + "\n"@,
        None => "- "@ + n.message + "\n"@,
    }
}

/// The context lines of a note from index `i` on, each indented by two
/// spaces.
pub open spec fn fmt_context(ctx: Seq<Seq<char>>, i: int) -> Seq<char>
    decreases ctx.len() - i,
{
    if i < 0 || i >= ctx.len() {
        Seq::empty()
    } else {
        "  "@ + ctx[i] + "\n"@ + fmt_context(ctx, i + 1)
    }
}

/// One rendered note: its head line, then its context lines.
pub open spec fn fmt_note(n: NoteV) -> Seq<char> {
    fmt_note_head(n) + fmt_context(n.context, 0)
}

/// The rendered notes of a section from index `i` on.
pub open spec fn fmt_notes(notes: Seq<NoteV>, i: int) -> Seq<char>
    decreases notes.len() - i,
{
    if i < 0 || i >= notes.len() {
        Seq::empty()
    } else {
        fmt_note(notes[i]) + fmt_notes(notes, i + 1)
    }
}

/// One rendered section: its title line, a blank line, then its notes.
pub open spec fn fmt_section(s: SectionV) -> Seq<char> {
    "### "@ + s.title + "\n\n"@ + fmt_notes(s.notes, 0)
}

/// The rendered title line of a release.
pub open spec fn fmt_title_line(t: TitleV) -> Seq<char> {
    "## ["@ + t.version + "]"@ + (match t.release_link {
        Some(l) => "("@ + l + ")"@,
        None => Seq::empty(),
    }) + (match t.title {
        Some(x) => " - "@ + x,
        None => Seq::empty(),
    }) + "\n"@
}

/// The blocks a run of sections contributes, from index `i` on: one block
/// per section that has at least one note.
pub open spec fn section_blocks(ss: Seq<SectionV>, i: int) -> Seq<Seq<char>>
    decreases ss.len() - i,
{
    if i < 0 || i >= ss.len() {
        Seq::empty()
    } else if ss[i].notes.len() > 0 {
        seq![fmt_section(ss[i])] + section_blocks(ss, i + 1)
    } else {
        section_blocks(ss, i + 1)
    }
}

/// The blocks one release contributes: optional title line, optional header
/// text, each non-empty section, optional footer text.
pub open spec fn release_blocks(r: ReleaseV, with_title: bool) -> Seq<Seq<char>> {
    (if with_title {
        seq![fmt_title_line(r.title)]
    } else {
        Seq::empty()
    }) + (match r.header {
        Some(h) => seq![h + "\n"@],
        None => Seq::<Seq<char>>::empty(),
    }) + section_blocks(r.sections, 0) + (match r.footer {
        Some(f) => seq![f + "\n"@],
        None => Seq::<Seq<char>>::empty(),
    })
}

/// Blocks joined with exactly one blank line between adjacent blocks.
pub open spec fn join_blank(blocks: Seq<Seq<char>>) -> Seq<char>
    decreases blocks.len(),
{
    if blocks.len() == 0 {
        Seq::empty()
    } else if blocks.len() == 1 {
        blocks[0]
    } else {
        blocks[0] + "\n"@ + join_blank(blocks.drop_first())
    }
}

/// One rendered release.
pub open spec fn fmt_release(r: ReleaseV, with_title: bool) -> Seq<char> {
    join_blank(release_blocks(r, with_title))
}

/// The blocks of the stored releases from index `i` down, most recent
/// version first.
pub open spec fn desc_release_blocks(es: Seq<EntryV>, i: int, with_title: bool) -> Seq<
    Seq<char>,
>
    decreases es.len() - i,
{
    if i < 0 || i >= es.len() {
        Seq::empty()
    } else {
        desc_release_blocks(es, i + 1, with_title).push(fmt_release(es[i].release, with_title))
    }
}

/// The rendered footer links from index `i` on: one `[text]: link` line
/// each.
pub open spec fn fmt_links(links: Seq<LinkV>, i: int) -> Seq<char>
    decreases links.len() - i,
{
    if i < 0 || i >= links.len() {
        Seq::empty()
    } else {
        "["@ + links[i].text + "]: "@ + links[i].link + "\n"@ + fmt_links(links, i + 1)
    }
}

/// The blocks of a whole document: optional preamble, the staging release if
/// present, then each stored release in descending version order.
pub open spec fn changelog_blocks(c: ChangeLogV, with_title: bool) -> Seq<Seq<char>> {
    (match c.header {
        Some(h) => seq![h + "\n"@],
        None => Seq::<Seq<char>>::empty(),
    }) + (match c.unreleased {
        Some(u) => seq![fmt_release(u, with_title)],
        None => Seq::<Seq<char>>::empty(),
    }) + desc_release_blocks(c.releases, 0, with_title)
}

/// One rendered document: the joined blocks, then the footer links after one
/// blank line when there are any.
pub open spec fn fmt_changelog(c: ChangeLogV, with_title: bool) -> Seq<char> {
    join_blank(changelog_blocks(c, with_title)) + (if c.links.len() > 0 {
        "\n"@ + fmt_links(c.links, 0)
    } else {
        Seq::<char>::empty()
    })
}

/// Joining one more block appends it after a blank line, or starts the text
/// when it is the first.
pub proof fn lemma_join_push(s: Seq<Seq<char>>, x: Seq<char>)
    ensures
        join_blank(s.push(x)) == if s.len() == 0 {
            x
        } else {
            join_blank(s) + "\n"@ + x
        },
    decreases s.len(),
{
    if s.len() == 0 {
        assert(s.push(x).len() == 1);
        assert(s.push(x)[0] == x);
    } else if s.len() == 1 {
        assert(s.push(x).drop_first() =~= seq![x]);
        assert(join_blank(s.push(x)) == s[0] + "\n"@ + join_blank(seq![x]));
        assert(join_blank(seq![x]) == x);
    } else {
        assert(s.push(x).drop_first() =~= s.drop_first().push(x));
        lemma_join_push(s.drop_first(), x);
        assert(join_blank(s.push(x)) == s[0] + "\n"@ + (join_blank(s.drop_first()) + "\n"@
            + x));
        assert(s[0] + "\n"@ + (join_blank(s.drop_first()) + "\n"@ + x) =~= (s[0] + "\n"@
            + join_blank(s.drop_first())) + "\n"@ + x);
    }
}

/// Append one rendered note to `s`.
pub fn serialize_release_section_note(s: &mut String, note: &ReleaseSectionNote)
    ensures
        final(s)@ == old(s)@ + fmt_note(note@),
{
    match &note.scope {
        Some(scope) => {
            s.append("- ");
            s.append(scope.as_str());
            s.append(": ");
            s.append(note.message.as_str());
            s.append("\n");
        },
        None => {
            s.append("- ");
            s.append(note.message.as_str());
            s.append("\n");
        },
    }
    proof {
        assert(s@ =~= old(s)@ + fmt_note_head(note@));
    }
    let ghost ctx = note@.context;
    let ghost head_done = s@;
    let mut i: usize = 0;
    while i < note.context.len()
        invariant
            0 <= i <= note.context@.len(),
            ctx == note@.context,
            ctx.len() == note.context@.len(),
            head_done + fmt_context(ctx, 0) == s@ + fmt_context(ctx, i as int),
        decreases note.context@.len() - i,
    {
        let ghost before = s@;
        s.append("  ");
        s.append(note.context[i].as_str());
        s.append("\n");
        proof {
            assert(note.context@[i as int]@ == ctx[i as int]);
            assert(s@ =~= before + ("  "@ + ctx[i as int] + "\n"@));
            assert(fmt_context(ctx, i as int) == "  "@ + ctx[i as int] + "\n"@ + fmt_context(
                ctx,
                i + 1,
            ));
            assert(before + ("  "@ + ctx[i as int] + "\n"@) + fmt_context(ctx, i + 1) =~= before
                + fmt_context(ctx, i as int));
        }
        i = i + 1;
    }
    proof {
        assert(fmt_context(ctx, i as int) =~= Seq::<char>::empty());
        assert(s@ + Seq::<char>::empty() =~= s@);
        assert(s@ =~= old(s)@ + (fmt_note_head(note@) + fmt_context(ctx, 0)));
    }
}

/// Append one rendered section to `s`: title, blank line, notes.
fn serialize_section(s: &mut String, section: &ReleaseSection)
    ensures
        final(s)@ == old(s)@ + fmt_section(section@),
{
    s.append("### ");
    s.append(section.title.as_str());
    s.append("\n\n");
    proof {
        assert(s@ =~= old(s)@ + ("### "@ + section@.title + "\n\n"@));
    }
    let ghost notes = section@.notes;
    let ghost head_done = s@;
    let mut i: usize = 0;
    while i < section.notes.len()
        invariant
            0 <= i <= section.notes@.len(),
            notes == section@.notes,
            notes.len() == section.notes@.len(),
            head_done + fmt_notes(notes, 0) == s@ + fmt_notes(notes, i as int),
        decreases section.notes@.len() - i,
    {
        let ghost before = s@;
        serialize_release_section_note(s, &section.notes[i]);
        proof {
            assert(section.notes@[i as int]@ == notes[i as int]);
            assert(fmt_notes(notes, i as int) == fmt_note(notes[i as int]) + fmt_notes(
                notes,
                i + 1,
            ));
            assert(before + fmt_note(notes[i as int]) + fmt_notes(notes, i + 1) =~= before
                + fmt_notes(notes, i as int));
        }
        i = i + 1;
    }
    proof {
        assert(fmt_notes(notes, i as int) =~= Seq::<char>::empty());
        assert(s@ + Seq::<char>::empty() =~= s@);
        assert(s@ =~= old(s)@ + ("### "@ + section@.title + "\n\n"@ + fmt_notes(notes, 0)));
    }
}

/// Append one rendered release to `s`, blocks separated by one blank line.
pub fn serialize_release(s: &mut String, release: &Release, options: &OptionsRelease)
    ensures
        final(s)@ == old(s)@ + fmt_release(release@, options.serialize_title),
{
    let ghost mut done: Seq<Seq<char>> = Seq::empty();
    let mut should_new_line = false;
    proof {
        assert(join_blank(done) =~= Seq::<char>::empty());
        assert(s@ =~= old(s)@ + join_blank(done));
    }
    if options.serialize_title {
        let ghost before = s@;
        s.append("## [");
        s.append(release.title.version.as_str());
        s.append("]");
        match &release.title.release_link {
            Some(link) => {
                s.append("(");
                s.append(link.as_str());
                s.append(")");
            },
            None => {},
        }
        match &release.title.title {
            Some(title) => {
                s.append(" - ");
                s.append(title.as_str());
            },
            None => {},
        }
        s.append("\n");
        proof {
            assert(s@ =~= before + fmt_title_line(release@.title));
            lemma_join_push(done, fmt_title_line(release@.title));
            done = done.push(fmt_title_line(release@.title));
            assert(s@ =~= old(s)@ + join_blank(done));
        }
        should_new_line = true;
    }
    match &release.header {
        Some(header) => {
            if should_new_line {
                s.append("\n");
            }
            let ghost before = s@;
            s.append(header.as_str());
            s.append("\n");
            proof {
                lemma_join_push(done, header@ + "\n"@);
                done = done.push(header@ + "\n"@);
                assert(s@ =~= old(s)@ + join_blank(done));
            }
            should_new_line = true;
        },
        None => {},
    }
    let ghost pre = done;
    let ghost secs = release@.sections;
    let mut i: usize = 0;
    while i < release.note_sections.len()
        invariant
            0 <= i <= release.note_sections@.len(),
            secs == release@.sections,
            secs.len() == release.note_sections@.len(),
            pre + section_blocks(secs, 0) == done + section_blocks(secs, i as int),
            s@ == old(s)@ + join_blank(done),
            should_new_line == (done.len() > 0),
        decreases release.note_sections@.len() - i,
    {
        if release.note_sections[i].notes.len() > 0 {
            if should_new_line {
                s.append("\n");
            }
            serialize_section(s, &release.note_sections[i]);
            proof {
                assert(release.note_sections@[i as int]@ == secs[i as int]);
                lemma_join_push(done, fmt_section(secs[i as int]));
                done = done.push(fmt_section(secs[i as int]));
                assert(s@ =~= old(s)@ + join_blank(done));
                assert(section_blocks(secs, i as int) == seq![fmt_section(secs[i as int])]
                    + section_blocks(secs, i + 1));
                assert(pre + section_blocks(secs, 0) =~= done + section_blocks(secs, i + 1));
            }
            should_new_line = true;
        } else {
            proof {
                assert(release.note_sections@[i as int]@ == secs[i as int]);
                assert(secs[i as int].notes.len() == 0);
                assert(section_blocks(secs, i as int) == section_blocks(secs, i + 1));
            }
        }
        i = i + 1;
    }
    proof {
        assert(section_blocks(secs, i as int) =~= Seq::<Seq<char>>::empty());
        assert(done + Seq::<Seq<char>>::empty() =~= done);
        assert(pre + section_blocks(secs, 0) =~= done);
    }
    match &release.footer {
        Some(footer) => {
            if should_new_line {
                s.append("\n");
            }
            s.append(footer.as_str());
            s.append("\n");
            proof {
                lemma_join_push(done, footer@ + "\n"@);
                done = done.push(footer@ + "\n"@);
                assert(s@ =~= old(s)@ + join_blank(done));
            }
        },
        None => {},
    }
    proof {
        assert(done =~= release_blocks(release@, options.serialize_title));
    }
}

/// Render a whole document: preamble, staging release, stored releases in
/// descending version order, then the footer links.
pub fn serialize_changelog(changelog: &ChangeLog, options: &Options) -> (r: String)
    ensures
        r@ == fmt_changelog(changelog@, options.release_option.serialize_title),
{
    let ghost with_title = options.release_option.serialize_title;
    let mut s = String::new();
    let ghost mut done: Seq<Seq<char>> = Seq::empty();
    let mut should_new_line = false;
    proof {
        assert(join_blank(done) =~= Seq::<char>::empty());
        assert(s@ =~= join_blank(done));
    }
    match &changelog.header {
        Some(header) => {
            s.append(header.as_str());
            s.append("\n");
            proof {
                lemma_join_push(done, header@ + "\n"@);
                done = done.push(header@ + "\n"@);
                assert(s@ =~= join_blank(done));
            }
            should_new_line = true;
        },
        None => {},
    }
    match &changelog.unreleased {
        Some(unreleased) => {
            if should_new_line {
                s.append("\n");
            }
            serialize_release(&mut s, unreleased, &options.release_option);
            proof {
                lemma_join_push(done, fmt_release(unreleased@, with_title));
                done = done.push(fmt_release(unreleased@, with_title));
                assert(s@ =~= join_blank(done));
            }
            should_new_line = true;
        },
        None => {},
    }
    let ghost pre = done;
    let ghost entries = changelog@.releases;
    let mut i: usize = changelog.releases.len();
    proof {
        assert(desc_release_blocks(entries, i as int, with_title) =~= Seq::<Seq<char>>::empty());
        assert(pre + desc_release_blocks(entries, i as int, with_title) =~= pre);
    }
    while i > 0
        invariant
            0 <= i <= changelog.releases@.len(),
            with_title == options.release_option.serialize_title,
            entries == changelog@.releases,
            entries.len() == changelog.releases@.len(),
            done == pre + desc_release_blocks(entries, i as int, with_title),
            s@ == join_blank(done),
            should_new_line == (done.len() > 0),
        decreases i,
    {
        i = i - 1;
        if should_new_line {
            s.append("\n");
        }
        serialize_release(&mut s, &changelog.releases[i].release, &options.release_option);
        proof {
            assert(changelog.releases@[i as int]@ == entries[i as int]);
            let block = fmt_release(entries[i as int].release, with_title);
            lemma_join_push(done, block);
            done = done.push(block);
            assert(s@ =~= join_blank(done));
            assert(desc_release_blocks(entries, i as int, with_title) == desc_release_blocks(
                entries,
                i + 1,
                with_title,
            ).push(block));
            assert(done =~= pre + desc_release_blocks(entries, i as int, with_title));
        }
        if !should_new_line {
            should_new_line = true;
        }
    }
    proof {
        assert(done =~= changelog_blocks(changelog@, with_title));
    }
    let ghost links = changelog@.links;
    if changelog.footer_links.links.len() > 0 {
        s.append("\n");
        proof {
            assert(s@ =~= join_blank(changelog_blocks(changelog@, with_title)) + "\n"@);
        }
        let ghost base = s@;
        let mut j: usize = 0;
        while j < changelog.footer_links.links.len()
            invariant
                0 <= j <= changelog.footer_links.links@.len(),
                links == changelog@.links,
                links.len() == changelog.footer_links.links@.len(),
                base + fmt_links(links, 0) == s@ + fmt_links(links, j as int),
            decreases changelog.footer_links.links@.len() - j,
        {
            let ghost before = s@;
            s.append("[");
            s.append(changelog.footer_links.links[j].text.as_str());
            s.append("]: ");
            s.append(changelog.footer_links.links[j].link.as_str());
            s.append("\n");
            proof {
                assert(changelog.footer_links.links@[j as int]@ == links[j as int]);
                let piece = "["@ + links[j as int].text + "]: "@ + links[j as int].link + "\n"@;
                assert(s@ =~= before + piece);
                assert(fmt_links(links, j as int) == piece + fmt_links(links, j + 1));
                assert(before + piece + fmt_links(links, j + 1) =~= before + fmt_links(
                    links,
                    j as int,
                ));
            }
            j = j + 1;
        }
        proof {
            assert(fmt_links(links, j as int) =~= Seq::<char>::empty());
            assert(s@ + Seq::<char>::empty() =~= s@);
            assert(s@ =~= fmt_changelog(changelog@, with_title));
        }
    } else {
        proof {
            assert(changelog@.links.len() == 0);
            assert(s@ + Seq::<char>::empty() =~= s@);
            assert(s@ =~= fmt_changelog(changelog@, with_title));
        }
    }
    s
}

} // verus!
