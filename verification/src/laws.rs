//! The laws the sanitizer obeys, stated over the ghost model and proved
//! once and for all: a sanitized document holds no empty note and no empty
//! section, and sanitizing a sanitized document changes nothing.

use vstd::multiset::Multiset;
use vstd::prelude::*;

use crate::fmt::lemma_find_title_bounds;
use crate::fmt::{
    blocks_of, dedup_notes, dedup_sections, distinct_scopes, find_title, flatten_blocks,
    insert_block, keep_nonempty_notes, notes_with_scope, remove_empty_sections,
    reorder_sections, sanitize_changelog_v, sanitize_release_v, scope_sort_notes,
    scopeless_notes, sort_blocks, BlockV,
};
use crate::de::{link_scan, nl_scan, p_link, p_title, ver_scan};
use crate::model::{ChangeLogV, LinkV, NoteV, ReleaseV, SectionV, TitleV, wf_sections};
use crate::ser::{fmt_links, fmt_title_line};
use crate::text::{is_trimmed, lemma_trim_identity};

verus! {

/// Every note of the run has something to say.
pub open spec fn all_nonempty(notes: Seq<NoteV>) -> bool {
    forall|j: int| 0 <= j < notes.len() ==> (#[trigger] notes[j]).message.len() > 0
}

/// Every section holds at least one note, and every note a non-empty
/// message.
pub open spec fn no_empties(ss: Seq<SectionV>) -> bool {
    forall|i: int|
        0 <= i < ss.len() ==> (#[trigger] ss[i]).notes.len() > 0 && all_nonempty(ss[i].notes)
}

proof fn lemma_keep_nonempty_all(n: Seq<NoteV>)
    ensures
        all_nonempty(keep_nonempty_notes(n)),
        forall|x: NoteV| #[trigger] keep_nonempty_notes(n).contains(x) ==> n.contains(x),
    decreases n.len(),
{
    if n.len() > 0 {
        lemma_keep_nonempty_all(n.drop_last());
        assert forall|x: NoteV| #[trigger] keep_nonempty_notes(n).contains(x) implies n.contains(
            x,
        ) by {
            let r = keep_nonempty_notes(n);
            let i = choose|i: int| 0 <= i < r.len() && r[i] == x;
            let prev = keep_nonempty_notes(n.drop_last());
            if i < prev.len() {
                assert(prev.contains(x));
                let k = choose|k: int| 0 <= k < n.drop_last().len() && n.drop_last()[k] == x;
                assert(n[k] == x);
            } else {
                assert(x == n.last());
            }
        }
    }
}

proof fn lemma_remove_empty_no_empties(ss: Seq<SectionV>)
    ensures
        no_empties(remove_empty_sections(ss)),
    decreases ss.len(),
{
    if ss.len() > 0 {
        lemma_remove_empty_no_empties(ss.drop_last());
        lemma_keep_nonempty_all(ss.last().notes);
    }
}

/// Membership through a section run with an element removed.
proof fn lemma_remove_contains(ss: Seq<SectionV>, j: int, x: SectionV)
    requires
        0 <= j < ss.len(),
        ss.remove(j).contains(x),
    ensures
        ss.contains(x),
{
    let i = choose|i: int| 0 <= i < ss.remove(j).len() && ss.remove(j)[i] == x;
    if i < j {
        assert(ss[i] == x);
    } else {
        assert(ss[i + 1] == x);
    }
}

/// Every section of the reordered run stands in the original run.
proof fn lemma_reorder_subset(ss: Seq<SectionV>, order: Seq<Seq<char>>)
    ensures
        forall|x: SectionV| #[trigger] reorder_sections(ss, order).contains(x) ==> ss.contains(
            x,
        ),
    decreases order.len(),
{
    if order.len() > 0 {
        let j = find_title(ss, order[0], 0);
        if j < ss.len() {
            lemma_find_title_bounds(ss, order[0], 0);
            lemma_reorder_subset(ss.remove(j), order.drop_first());
            assert forall|x: SectionV| #[trigger] reorder_sections(ss, order).contains(x)
                implies ss.contains(x) by {
                let r = reorder_sections(ss, order);
                let i = choose|i: int| 0 <= i < r.len() && r[i] == x;
                if i == 0 {
                    assert(ss[j] == x);
                } else {
                    let tail = reorder_sections(ss.remove(j), order.drop_first());
                    assert(tail[i - 1] == x);
                    assert(tail.contains(x));
                    lemma_remove_contains(ss, j, x);
                }
            }
        } else {
            lemma_reorder_subset(ss, order.drop_first());
            assert(reorder_sections(ss, order) == reorder_sections(ss, order.drop_first()));
        }
    }
}

proof fn lemma_nws_subset(n: Seq<NoteV>, sc: Seq<char>)
    ensures
        forall|x: NoteV| #[trigger] notes_with_scope(n, sc).contains(x) ==> n.contains(x) && x
            .scope == Some(sc),
    decreases n.len(),
{
    if n.len() > 0 {
        lemma_nws_subset(n.drop_last(), sc);
        assert forall|x: NoteV| #[trigger] notes_with_scope(n, sc).contains(x) implies n.contains(
            x,
        ) && x.scope == Some(sc) by {
            let r = notes_with_scope(n, sc);
            let prev = notes_with_scope(n.drop_last(), sc);
            let i = choose|i: int| 0 <= i < r.len() && r[i] == x;
            if i < prev.len() {
                assert(prev.contains(x));
                let k = choose|k: int| 0 <= k < n.drop_last().len() && n.drop_last()[k] == x;
                assert(n[k] == x);
            } else {
                assert(x == n.last());
            }
        }
    }
}

proof fn lemma_scopeless_subset(n: Seq<NoteV>)
    ensures
        forall|x: NoteV| #[trigger] scopeless_notes(n).contains(x) ==> n.contains(x) && x.scope
            is None,
    decreases n.len(),
{
    if n.len() > 0 {
        lemma_scopeless_subset(n.drop_last());
        assert forall|x: NoteV| #[trigger] scopeless_notes(n).contains(x) implies n.contains(x)
            && x.scope is None by {
            let r = scopeless_notes(n);
            let prev = scopeless_notes(n.drop_last());
            let i = choose|i: int| 0 <= i < r.len() && r[i] == x;
            if i < prev.len() {
                assert(prev.contains(x));
                let k = choose|k: int| 0 <= k < n.drop_last().len() && n.drop_last()[k] == x;
                assert(n[k] == x);
            } else {
                assert(x == n.last());
            }
        }
    }
}

proof fn lemma_insert_block_elems(s: Seq<BlockV>, b: BlockV)
    ensures
        forall|x: BlockV| #[trigger] insert_block(s, b).contains(x) ==> s.contains(x) || x == b,
        forall|x: BlockV| s.contains(x) ==> #[trigger] insert_block(s, b).contains(x),
        insert_block(s, b).contains(b),
    decreases s.len(),
{
    let r = insert_block(s, b);
    if s.len() == 0 {
        assert(r[0] == b);
    } else if s.last().notes.len() >= b.notes.len() {
        assert(r.last() == b);
        assert forall|x: BlockV| s.contains(x) implies #[trigger] r.contains(x) by {
            let i = choose|i: int| 0 <= i < s.len() && s[i] == x;
            assert(r[i] == x);
        }
        assert forall|x: BlockV| #[trigger] r.contains(x) implies s.contains(x) || x == b by {
            let i = choose|i: int| 0 <= i < r.len() && r[i] == x;
            if i < s.len() {
                assert(s[i] == x);
            }
        }
    } else {
        lemma_insert_block_elems(s.drop_last(), b);
        let inner = insert_block(s.drop_last(), b);
        assert(r == inner.push(s.last()));
        assert forall|x: BlockV| #[trigger] r.contains(x) implies s.contains(x) || x == b by {
            let i = choose|i: int| 0 <= i < r.len() && r[i] == x;
            if i < inner.len() {
                assert(inner.contains(x));
                if x != b {
                    let k = choose|k: int|
                        0 <= k < s.drop_last().len() && s.drop_last()[k] == x;
                    assert(s[k] == x);
                }
            } else {
                assert(x == s.last());
            }
        }
        assert forall|x: BlockV| s.contains(x) implies #[trigger] r.contains(x) by {
            let i = choose|i: int| 0 <= i < s.len() && s[i] == x;
            if i < s.len() - 1 {
                assert(s.drop_last()[i] == x);
                assert(s.drop_last().contains(x));
                assert(inner.contains(x));
                let k = choose|k: int| 0 <= k < inner.len() && inner[k] == x;
                assert(r[k] == x);
            } else {
                assert(r.last() == x);
            }
        }
        assert(inner.contains(b));
        let k = choose|k: int| 0 <= k < inner.len() && inner[k] == b;
        assert(r[k] == b);
    }
}

proof fn lemma_sort_blocks_elems(bs: Seq<BlockV>)
    ensures
        forall|x: BlockV| #[trigger] sort_blocks(bs).contains(x) ==> bs.contains(x),
        forall|x: BlockV| bs.contains(x) ==> #[trigger] sort_blocks(bs).contains(x),
    decreases bs.len(),
{
    if bs.len() > 0 {
        lemma_sort_blocks_elems(bs.drop_last());
        lemma_insert_block_elems(sort_blocks(bs.drop_last()), bs.last());
        assert forall|x: BlockV| #[trigger] sort_blocks(bs).contains(x) implies bs.contains(
            x,
        ) by {
            if x != bs.last() {
                assert(sort_blocks(bs.drop_last()).contains(x));
                assert(bs.drop_last().contains(x));
                let k = choose|k: int| 0 <= k < bs.drop_last().len() && bs.drop_last()[k] == x;
                assert(bs[k] == x);
            }
        }
        assert forall|x: BlockV| bs.contains(x) implies #[trigger] sort_blocks(bs).contains(
            x,
        ) by {
            let i = choose|i: int| 0 <= i < bs.len() && bs[i] == x;
            if i < bs.len() - 1 {
                assert(bs.drop_last()[i] == x);
                assert(bs.drop_last().contains(x));
            } else {
                assert(x == bs.last());
            }
        }
    }
}

proof fn lemma_flatten_membership(bs: Seq<BlockV>)
    ensures
        forall|x: NoteV| #[trigger] flatten_blocks(bs).contains(x) ==> exists|b: BlockV|
            #[trigger] bs.contains(b) && b.notes.contains(x),
        forall|b: BlockV, x: NoteV|
            #[trigger] bs.contains(b) && #[trigger] b.notes.contains(x) ==> flatten_blocks(
                bs,
            ).contains(x),
    decreases bs.len(),
{
    if bs.len() > 0 {
        lemma_flatten_membership(bs.drop_last());
        let r = flatten_blocks(bs);
        let prev = flatten_blocks(bs.drop_last());
        assert forall|x: NoteV| #[trigger] r.contains(x) implies exists|b: BlockV|
            #[trigger] bs.contains(b) && b.notes.contains(x) by {
            let i = choose|i: int| 0 <= i < r.len() && r[i] == x;
            if i < prev.len() {
                assert(prev[i] == x);
                assert(prev.contains(x));
                let b = choose|b: BlockV|
                    #[trigger] bs.drop_last().contains(b) && b.notes.contains(x);
                let k = choose|k: int| 0 <= k < bs.drop_last().len() && bs.drop_last()[k] == b;
                assert(bs[k] == b);
                assert(bs.contains(b) && b.notes.contains(x));
            } else {
                assert(bs.last().notes[i - prev.len()] == x);
                assert(bs.last().notes.contains(x));
                assert(bs.contains(bs.last()));
            }
        }
        assert forall|b: BlockV, x: NoteV|
            #[trigger] bs.contains(b) && #[trigger] b.notes.contains(x) implies r.contains(
            x,
        ) by {
            let i = choose|i: int| 0 <= i < bs.len() && bs[i] == b;
            if i < bs.len() - 1 {
                assert(bs.drop_last()[i] == b);
                assert(bs.drop_last().contains(b));
                assert(prev.contains(x));
                let k = choose|k: int| 0 <= k < prev.len() && prev[k] == x;
                assert(r[k] == x);
            } else {
                let k = choose|k: int| 0 <= k < b.notes.len() && b.notes[k] == x;
                assert(r[prev.len() + k] == x);
            }
        }
    }
}

proof fn lemma_ds_complete(n: Seq<NoteV>, i: int)
    requires
        0 <= i < n.len(),
        n[i].scope is Some,
    ensures
        distinct_scopes(n).contains(n[i].scope->0),
        notes_with_scope(n, n[i].scope->0).contains(n[i]),
    decreases n.len(),
{
    let sc = n[i].scope->0;
    if i == n.len() - 1 {
        let prev = distinct_scopes(n.drop_last());
        if prev.contains(sc) {
        } else {
            assert(distinct_scopes(n).last() == sc);
        }
        assert(notes_with_scope(n, sc).last() == n[i]);
    } else {
        assert(n.drop_last()[i] == n[i]);
        lemma_ds_complete(n.drop_last(), i);
        let prevd = distinct_scopes(n.drop_last());
        let k = choose|k: int| 0 <= k < prevd.len() && prevd[k] == sc;
        match n.last().scope {
            Some(sc2) => {
                if prevd.contains(sc2) {
                    assert(distinct_scopes(n) == prevd);
                } else {
                    assert(distinct_scopes(n)[k] == sc);
                }
            },
            None => {},
        }
        let prevw = notes_with_scope(n.drop_last(), sc);
        let q = choose|q: int| 0 <= q < prevw.len() && prevw[q] == n[i];
        assert(notes_with_scope(n, sc)[q] == n[i]);
    }
}

proof fn lemma_scopeless_complete(n: Seq<NoteV>, i: int)
    requires
        0 <= i < n.len(),
        n[i].scope is None,
    ensures
        scopeless_notes(n).contains(n[i]),
    decreases n.len(),
{
    if i == n.len() - 1 {
        assert(scopeless_notes(n).last() == n[i]);
    } else {
        assert(n.drop_last()[i] == n[i]);
        lemma_scopeless_complete(n.drop_last(), i);
        let prev = scopeless_notes(n.drop_last());
        let q = choose|q: int| 0 <= q < prev.len() && prev[q] == n[i];
        assert(scopeless_notes(n)[q] == n[i]);
    }
}

/// Every note the grouping hands back stands in the original run, and a
/// non-empty run never comes back empty.
proof fn lemma_scope_sort_notes_facts(n: Seq<NoteV>)
    ensures
        forall|x: NoteV| #[trigger] scope_sort_notes(n).contains(x) ==> n.contains(x),
        n.len() > 0 ==> scope_sort_notes(n).len() > 0,
{
    let bs = blocks_of(n);
    let sorted = sort_blocks(bs);
    let m = scope_sort_notes(n);
    lemma_sort_blocks_elems(bs);
    lemma_flatten_membership(sorted);
    lemma_nws_subset_all(n);
    lemma_scopeless_subset(n);
    assert forall|x: NoteV| #[trigger] m.contains(x) implies n.contains(x) by {
        let i = choose|i: int| 0 <= i < m.len() && m[i] == x;
        let f = flatten_blocks(sorted);
        if i < f.len() {
            assert(f[i] == x);
            assert(f.contains(x));
            let b = choose|b: BlockV| #[trigger] sorted.contains(b) && b.notes.contains(x);
            assert(bs.contains(b));
            let k = choose|k: int| 0 <= k < bs.len() && bs[k] == b;
            assert(bs[k].notes == notes_with_scope(n, distinct_scopes(n)[k]));
        } else {
            assert(scopeless_notes(n)[i - f.len()] == x);
            assert(scopeless_notes(n).contains(x));
        }
    }
    if n.len() > 0 {
        let last = n[n.len() - 1];
        match last.scope {
            Some(sc) => {
                lemma_ds_complete(n, n.len() - 1);
                let k = choose|k: int|
                    0 <= k < distinct_scopes(n).len() && distinct_scopes(n)[k] == sc;
                let b = bs[k];
                assert(bs.contains(b));
                assert(b.notes == notes_with_scope(n, sc));
                assert(sorted.contains(b));
                assert(flatten_blocks(sorted).contains(last));
                let q = choose|q: int|
                    0 <= q < flatten_blocks(sorted).len() && flatten_blocks(sorted)[q] == last;
                assert(m[q] == last);
            },
            None => {
                lemma_scopeless_complete(n, n.len() - 1);
                let f = flatten_blocks(sorted);
                let q = choose|q: int|
                    0 <= q < scopeless_notes(n).len() && scopeless_notes(n)[q] == last;
                assert(m[f.len() + q] == last);
            },
        }
    }
}

/// Membership for each collected scope's block.
proof fn lemma_nws_subset_all(n: Seq<NoteV>)
    ensures
        forall|sc: Seq<char>, x: NoteV|
            #[trigger] notes_with_scope(n, sc).contains(x) ==> n.contains(x),
{
    assert forall|sc: Seq<char>, x: NoteV|
        #[trigger] notes_with_scope(n, sc).contains(x) implies n.contains(x) by {
        lemma_nws_subset(n, sc);
    }
}

proof fn lemma_dedup_membership(n: Seq<NoteV>)
    ensures
        forall|x: NoteV| #[trigger] dedup_notes(n).contains(x) <==> n.contains(x),
    decreases n.len(),
{
    if n.len() > 0 {
        lemma_dedup_membership(n.drop_last());
        let r = dedup_notes(n);
        let prev = dedup_notes(n.drop_last());
        assert forall|x: NoteV| #[trigger] r.contains(x) implies n.contains(x) by {
            let i = choose|i: int| 0 <= i < r.len() && r[i] == x;
            if i < prev.len() {
                assert(prev.contains(x));
                let k = choose|k: int| 0 <= k < n.drop_last().len() && n.drop_last()[k] == x;
                assert(n[k] == x);
            } else {
                assert(x == n.last());
            }
        }
        assert forall|x: NoteV| n.contains(x) implies #[trigger] r.contains(x) by {
            let i = choose|i: int| 0 <= i < n.len() && n[i] == x;
            if i < n.len() - 1 {
                assert(n.drop_last()[i] == x);
                assert(n.drop_last().contains(x));
                assert(prev.contains(x));
                let k = choose|k: int| 0 <= k < prev.len() && prev[k] == x;
                assert(r[k] == x);
            } else {
                if prev.contains(n.last()) {
                    let k = choose|k: int| 0 <= k < prev.len() && prev[k] == x;
                    assert(r[k] == x);
                } else {
                    assert(r.last() == x);
                }
            }
        }
    }
}

proof fn lemma_dedup_no_dups(n: Seq<NoteV>)
    ensures
        dedup_notes(n).no_duplicates(),
    decreases n.len(),
{
    if n.len() > 0 {
        lemma_dedup_no_dups(n.drop_last());
        let prev = dedup_notes(n.drop_last());
        if !prev.contains(n.last()) {
            assert forall|i: int, j: int|
                0 <= i < dedup_notes(n).len() && 0 <= j < dedup_notes(n).len() && i != j
                implies dedup_notes(n)[i] != dedup_notes(n)[j] by {
                let r = dedup_notes(n);
                if i < prev.len() && j < prev.len() {
                } else if i < prev.len() {
                    assert(prev.contains(prev[i]));
                } else if j < prev.len() {
                    assert(prev.contains(prev[j]));
                }
            }
        }
    }
}

proof fn lemma_dedup_identity(n: Seq<NoteV>)
    requires
        n.no_duplicates(),
    ensures
        dedup_notes(n) == n,
    decreases n.len(),
{
    if n.len() > 0 {
        assert(n.drop_last().no_duplicates());
        lemma_dedup_identity(n.drop_last());
        assert(!n.drop_last().contains(n.last())) by {
            if n.drop_last().contains(n.last()) {
                let k = choose|k: int|
                    0 <= k < n.drop_last().len() && n.drop_last()[k] == n.last();
                assert(n[k] == n[n.len() - 1]);
            }
        }
        assert(dedup_notes(n) =~= n);
    }
}

/// LAW (dedup idempotence): collapsing duplicates twice is collapsing them
/// once.
pub proof fn lemma_dedup_idempotent(n: Seq<NoteV>)
    ensures
        dedup_notes(dedup_notes(n)) == dedup_notes(n),
{
    lemma_dedup_no_dups(n);
    lemma_dedup_identity(dedup_notes(n));
}

proof fn lemma_keep_identity(n: Seq<NoteV>)
    requires
        all_nonempty(n),
    ensures
        keep_nonempty_notes(n) == n,
    decreases n.len(),
{
    if n.len() > 0 {
        assert(all_nonempty(n.drop_last()));
        lemma_keep_identity(n.drop_last());
        assert(n[n.len() - 1].message.len() > 0);
        assert(keep_nonempty_notes(n) =~= n);
    }
}

proof fn lemma_remove_empty_identity(ss: Seq<SectionV>)
    requires
        no_empties(ss),
    ensures
        remove_empty_sections(ss) == ss,
    decreases ss.len(),
{
    if ss.len() > 0 {
        assert(no_empties(ss.drop_last()));
        lemma_remove_empty_identity(ss.drop_last());
        assert(ss[ss.len() - 1].notes.len() > 0 && all_nonempty(ss[ss.len() - 1].notes));
        lemma_keep_identity(ss.last().notes);
        assert(remove_empty_sections(ss) =~= ss);
    }
}

proof fn lemma_keep_preserves_nodups(n: Seq<NoteV>)
    requires
        n.no_duplicates(),
    ensures
        keep_nonempty_notes(n).no_duplicates(),
    decreases n.len(),
{
    if n.len() > 0 {
        assert(n.drop_last().no_duplicates());
        lemma_keep_preserves_nodups(n.drop_last());
        lemma_keep_nonempty_all(n.drop_last());
        if n.last().message.len() > 0 {
            assert(!n.drop_last().contains(n.last())) by {
                if n.drop_last().contains(n.last()) {
                    let k = choose|k: int|
                        0 <= k < n.drop_last().len() && n.drop_last()[k] == n.last();
                    assert(n[k] == n[n.len() - 1]);
                }
            }
            assert(!keep_nonempty_notes(n.drop_last()).contains(n.last()));
            let r = keep_nonempty_notes(n);
            let prev = keep_nonempty_notes(n.drop_last());
            assert forall|i: int, j: int|
                0 <= i < r.len() && 0 <= j < r.len() && i != j implies r[i] != r[j] by {
                if i < prev.len() && j < prev.len() {
                } else if i < prev.len() {
                    assert(prev.contains(prev[i]));
                } else if j < prev.len() {
                    assert(prev.contains(prev[j]));
                }
            }
        }
    }
}

/// A title standing in the reordered run stands in the original run.
proof fn lemma_reorder_wf(ss: Seq<SectionV>, order: Seq<Seq<char>>)
    requires
        wf_sections(ss),
    ensures
        wf_sections(reorder_sections(ss, order)),
    decreases order.len(),
{
    if order.len() > 0 {
        let j = find_title(ss, order[0], 0);
        if j < ss.len() {
            lemma_find_title_bounds(ss, order[0], 0);
            assert(wf_sections(ss.remove(j))) by {
                assert forall|a: int, b: int|
                    0 <= a < b < ss.remove(j).len() implies ss.remove(j)[a].title != ss.remove(
                    j,
                )[b].title by {
                    let a2: int = if a < j {
                        a
                    } else {
                        a + 1
                    };
                    let b2: int = if b < j {
                        b
                    } else {
                        b + 1
                    };
                    assert(ss.remove(j)[a] == ss[a2] && ss.remove(j)[b] == ss[b2]);
                }
            }
            lemma_reorder_wf(ss.remove(j), order.drop_first());
            lemma_reorder_subset(ss.remove(j), order.drop_first());
            let tail = reorder_sections(ss.remove(j), order.drop_first());
            let r = reorder_sections(ss, order);
            assert forall|a: int, b: int| 0 <= a < b < r.len() implies r[a].title
                != r[b].title by {
                if a == 0 {
                    assert(r[b] == tail[b - 1]);
                    assert(tail.contains(tail[b - 1]));
                    assert(ss.remove(j).contains(tail[b - 1]));
                    let k = choose|k: int|
                        0 <= k < ss.remove(j).len() && ss.remove(j)[k] == tail[b - 1];
                    let k2: int = if k < j {
                        k
                    } else {
                        k + 1
                    };
                    assert(ss.remove(j)[k] == ss[k2]);
                    assert(ss[j].title != ss[k2].title);
                } else {
                    assert(r[a] == tail[a - 1] && r[b] == tail[b - 1]);
                }
            }
        } else {
            lemma_reorder_wf(ss, order.drop_first());
            assert(reorder_sections(ss, order) == reorder_sections(ss, order.drop_first()));
        }
    }
}

/// Reordering a reordered run changes nothing, when titles are unique.
proof fn lemma_reorder_idempotent(ss: Seq<SectionV>, order: Seq<Seq<char>>)
    requires
        wf_sections(ss),
    ensures
        reorder_sections(reorder_sections(ss, order), order) == reorder_sections(ss, order),
    decreases order.len(),
{
    lemma_reorder_idempotent_from(ss, order, order)
}

/// The working form of the reorder idempotence: the outer order may be any
/// suffix-extension shape with the same head handling.
proof fn lemma_reorder_idempotent_from(ss: Seq<SectionV>, order: Seq<Seq<char>>, outer: Seq<Seq<char>>)
    requires
        wf_sections(ss),
        outer == order,
    ensures
        reorder_sections(reorder_sections(ss, order), order) == reorder_sections(ss, order),
    decreases order.len(),
{
    if order.len() == 0 {
    } else {
        let t = order[0];
        let j = find_title(ss, t, 0);
        lemma_find_title_bounds(ss, t, 0);
        if j < ss.len() {
            assert(wf_sections(ss.remove(j))) by {
                assert forall|a: int, b: int|
                    0 <= a < b < ss.remove(j).len() implies ss.remove(j)[a].title != ss.remove(
                    j,
                )[b].title by {
                    let a2: int = if a < j {
                        a
                    } else {
                        a + 1
                    };
                    let b2: int = if b < j {
                        b
                    } else {
                        b + 1
                    };
                    assert(ss.remove(j)[a] == ss[a2] && ss.remove(j)[b] == ss[b2]);
                }
            }
            let tail = reorder_sections(ss.remove(j), order.drop_first());
            let r = reorder_sections(ss, order);
            assert(r == seq![ss[j]] + tail);
            assert(r[0] == ss[j]);
            assert(find_title(r, t, 0) == 0);
            lemma_reorder_idempotent_from(ss.remove(j), order.drop_first(), order.drop_first());
            assert(r.remove(0) =~= tail);
            assert(reorder_sections(r, order) == seq![r[0]] + reorder_sections(
                r.remove(0),
                order.drop_first(),
            ));
            assert(reorder_sections(r, order) =~= r);
        } else {
            let r = reorder_sections(ss, order.drop_first());
            assert(reorder_sections(ss, order) == r);
            lemma_reorder_subset(ss, order.drop_first());
            assert(find_title(r, t, 0) == r.len()) by {
                lemma_find_title_bounds(r, t, 0);
                if find_title(r, t, 0) < r.len() {
                    let x = r[find_title(r, t, 0)];
                    assert(r.contains(x));
                    assert(ss.contains(x));
                    let k = choose|k: int| 0 <= k < ss.len() && ss[k] == x;
                    assert(ss[k].title == t);
                }
            }
            lemma_reorder_idempotent_from(ss, order.drop_first(), order.drop_first());
        }
    }
}

/// Reordering an empty run yields an empty run.
proof fn lemma_reorder_empty(order: Seq<Seq<char>>)
    ensures
        reorder_sections(Seq::<SectionV>::empty(), order) == Seq::<SectionV>::empty(),
    decreases order.len(),
{
    if order.len() > 0 {
        lemma_find_title_bounds(Seq::<SectionV>::empty(), order[0], 0);
        lemma_reorder_empty(order.drop_first());
    }
}

/// Titles are untouched by per-section note rewrites, so uniqueness
/// survives deduplication.
proof fn lemma_dedup_sections_wf(ss: Seq<SectionV>)
    requires
        wf_sections(ss),
    ensures
        wf_sections(dedup_sections(ss)),
{
    assert forall|a: int, b: int|
        0 <= a < b < dedup_sections(ss).len() implies dedup_sections(ss)[a].title
        != dedup_sections(ss)[b].title by {
        assert(dedup_sections(ss)[a].title == ss[a].title);
        assert(dedup_sections(ss)[b].title == ss[b].title);
    }
}

/// Every title of the cleaned run is a title of the original run.
proof fn lemma_remove_empty_wf(ss: Seq<SectionV>)
    requires
        wf_sections(ss),
    ensures
        wf_sections(remove_empty_sections(ss)),
        forall|x: SectionV| #[trigger] remove_empty_sections(ss).contains(x) ==> exists|k: int|
            0 <= k < ss.len() && (#[trigger] ss[k]).title == x.title,
    decreases ss.len(),
{
    if ss.len() > 0 {
        assert(wf_sections(ss.drop_last()));
        lemma_remove_empty_wf(ss.drop_last());
        let r = remove_empty_sections(ss);
        let prev = remove_empty_sections(ss.drop_last());
        assert forall|x: SectionV| #[trigger] r.contains(x) implies exists|k: int|
            0 <= k < ss.len() && (#[trigger] ss[k]).title == x.title by {
            let i = choose|i: int| 0 <= i < r.len() && r[i] == x;
            if i < prev.len() {
                assert(prev.contains(x));
                let k = choose|k: int|
                    0 <= k < ss.drop_last().len() && (#[trigger] ss.drop_last()[k]).title
                        == x.title;
                assert(ss[k].title == x.title);
            } else {
                assert(x.title == ss[ss.len() - 1].title);
            }
        }
        assert forall|a: int, b: int| 0 <= a < b < r.len() implies r[a].title != r[b].title by {
            if b < prev.len() {
            } else {
                assert(r[b].title == ss[ss.len() - 1].title);
                assert(prev.contains(prev[a]));
                let k = choose|k: int|
                    0 <= k < ss.drop_last().len() && (#[trigger] ss.drop_last()[k]).title
                        == prev[a].title;
                assert(ss[k].title == r[a].title);
            }
        }
    }
}

/// Every section of the cleaned run is a cleaned form of some original
/// section.
proof fn lemma_remove_empty_elements(ss: Seq<SectionV>)
    ensures
        forall|x: SectionV| #[trigger] remove_empty_sections(ss).contains(x) ==> exists|q: int|
            0 <= q < ss.len() && x == (SectionV {
                title: (#[trigger] ss[q]).title,
                notes: keep_nonempty_notes(ss[q].notes),
            }),
    decreases ss.len(),
{
    if ss.len() > 0 {
        lemma_remove_empty_elements(ss.drop_last());
        let r = remove_empty_sections(ss);
        let prev = remove_empty_sections(ss.drop_last());
        assert forall|x: SectionV| #[trigger] r.contains(x) implies exists|q: int|
            0 <= q < ss.len() && x == (SectionV {
                title: (#[trigger] ss[q]).title,
                notes: keep_nonempty_notes(ss[q].notes),
            }) by {
            let i = choose|i: int| 0 <= i < r.len() && r[i] == x;
            if i < prev.len() {
                assert(prev.contains(x));
                let q = choose|q: int|
                    0 <= q < ss.drop_last().len() && x == (SectionV {
                        title: (#[trigger] ss.drop_last()[q]).title,
                        notes: keep_nonempty_notes(ss.drop_last()[q].notes),
                    });
                assert(ss[q] == ss.drop_last()[q]);
            } else {
                assert(x == (SectionV {
                    title: ss[ss.len() - 1].title,
                    notes: keep_nonempty_notes(ss[ss.len() - 1].notes),
                }));
            }
        }
    }
}

/// Each section with its notes grouped by scope.
spec fn gmap(ss: Seq<SectionV>) -> Seq<SectionV> {
    ss.map_values(|s: SectionV| SectionV { title: s.title, notes: scope_sort_notes(s.notes) })
}

/// Grouping a section's notes leaves its title alone, so title search does
/// not see it.
proof fn lemma_find_title_map(ss: Seq<SectionV>, t: Seq<char>, i: int)
    requires
        0 <= i <= ss.len(),
    ensures
        find_title(gmap(ss), t, i) == find_title(ss, t, i),
    decreases ss.len() - i,
{
    let m = gmap(ss);
    if i < ss.len() {
        assert(m[i].title == ss[i].title);
        if ss[i].title != t {
            lemma_find_title_map(ss, t, i + 1);
        }
    }
}

/// Reordering commutes with grouping each section's notes.
proof fn lemma_reorder_scope_map(ss: Seq<SectionV>, order: Seq<Seq<char>>)
    ensures
        reorder_sections(gmap(ss), order) == gmap(reorder_sections(ss, order)),
    decreases order.len(),
{
    let m = gmap(ss);
    if order.len() == 0 {
        assert(reorder_sections(m, order) =~= gmap(reorder_sections(ss, order)));
    } else {
        lemma_find_title_map(ss, order[0], 0);
        lemma_find_title_bounds(ss, order[0], 0);
        let j = find_title(ss, order[0], 0);
        if j < ss.len() {
            assert(m.len() == ss.len());
            m.remove_ensures(j);
            ss.remove_ensures(j);
            assert forall|i: int|
                0 <= i < m.remove(j).len() implies m.remove(j)[i] == gmap(ss.remove(j))[i] by {
                if i < j {
                    assert(m.remove(j)[i] == m[i]);
                    assert(ss.remove(j)[i] == ss[i]);
                } else {
                    assert(m.remove(j)[i] == m[i + 1]);
                    assert(ss.remove(j)[i] == ss[i + 1]);
                }
            }
            assert(m.remove(j) =~= gmap(ss.remove(j)));
            lemma_reorder_scope_map(ss.remove(j), order.drop_first());
            let tail = reorder_sections(ss.remove(j), order.drop_first());
            assert(reorder_sections(m, order) == seq![m[j]] + gmap(tail));
            assert(reorder_sections(ss, order) == seq![ss[j]] + tail);
            assert forall|i: int|
                0 <= i < reorder_sections(m, order).len() implies reorder_sections(m, order)[i]
                    == gmap(reorder_sections(ss, order))[i] by {
                if i == 0 {
                    assert(reorder_sections(m, order)[0] == m[j]);
                    assert(gmap(reorder_sections(ss, order))[0] == gmap(ss)[j]);
                } else {
                    assert(reorder_sections(m, order)[i] == gmap(tail)[i - 1]);
                    assert(reorder_sections(ss, order)[i] == tail[i - 1]);
                }
            }
            assert(reorder_sections(m, order) =~= gmap(reorder_sections(ss, order)));
        } else {
            lemma_reorder_scope_map(ss, order.drop_first());
        }
    }
}

/// LAW (sanitize idempotence for a release): sanitizing a sanitized release
/// changes nothing, whether or not notes are regrouped by scope.
pub proof fn lemma_sanitize_release_idempotent(r: ReleaseV, order: Seq<Seq<char>>, scope: bool)
    requires
        wf_sections(r.sections),
    ensures
        sanitize_release_v(sanitize_release_v(r, order, scope), order, scope)
            == sanitize_release_v(r, order, scope),
{
    let deduped = dedup_sections(r.sections);
    let cleaned = remove_empty_sections(deduped);
    let s1 = reorder_sections(cleaned, order);
    lemma_dedup_sections_wf(r.sections);
    lemma_remove_empty_wf(deduped);
    lemma_remove_empty_no_empties(deduped);
    lemma_reorder_subset(cleaned, order);
    lemma_reorder_wf(cleaned, order);
    lemma_remove_empty_elements(deduped);
    assert forall|i: int| 0 <= i < s1.len() implies (#[trigger] s1[i]).notes.no_duplicates()
        && s1[i].notes.len() > 0 && all_nonempty(s1[i].notes) by {
        assert(s1.contains(s1[i]));
        assert(cleaned.contains(s1[i]));
        let q = choose|q: int|
            0 <= q < deduped.len() && s1[i] == (SectionV {
                title: deduped[q].title,
                notes: keep_nonempty_notes(deduped[q].notes),
            });
        assert(deduped[q].notes == dedup_notes(r.sections[q].notes));
        lemma_dedup_no_dups(r.sections[q].notes);
        lemma_keep_preserves_nodups(deduped[q].notes);
        let k = choose|k: int| 0 <= k < cleaned.len() && cleaned[k] == s1[i];
    }
    assert(dedup_sections(s1) =~= s1) by {
        assert forall|i: int| 0 <= i < s1.len() implies dedup_sections(s1)[i] == s1[i] by {
            lemma_dedup_identity(s1[i].notes);
            assert(dedup_sections(s1)[i] =~= s1[i]);
        }
    }
    assert(no_empties(s1));
    lemma_reorder_idempotent(cleaned, order);
    if !scope {
        lemma_remove_empty_identity(s1);
        assert(sanitize_release_v(sanitize_release_v(r, order, scope), order, scope).sections
            == s1);
        assert(sanitize_release_v(sanitize_release_v(r, order, scope), order, scope)
            =~= sanitize_release_v(r, order, scope));
    } else {
        let s2 = gmap(s1);
        assert(sanitize_release_v(r, order, scope).sections =~= s2);
        // Collapsing duplicates again changes nothing: grouped notes of a
        // duplicate-free run stay duplicate-free.
        assert(dedup_sections(s2) =~= s2) by {
            assert forall|i: int| 0 <= i < s2.len() implies dedup_sections(s2)[i] == s2[i] by {
                assert(s2[i].notes == scope_sort_notes(s1[i].notes));
                lemma_scope_sort_nodup(s1[i].notes);
                lemma_dedup_identity(s2[i].notes);
                assert(dedup_sections(s2)[i] =~= s2[i]);
            }
        }
        // Nothing is empty after the first pass.
        lemma_sanitize_release_no_empties(r, order, scope);
        assert(no_empties(sanitize_release_v(r, order, scope).sections));
        assert(no_empties(s2));
        lemma_remove_empty_identity(s2);
        // Reordering again changes nothing, and regrouping grouped notes
        // changes nothing.
        lemma_reorder_scope_map(s1, order);
        assert(reorder_sections(s2, order) == gmap(reorder_sections(s1, order)));
        assert(reorder_sections(s1, order) == s1);
        let s3 = gmap(reorder_sections(s2, order));
        assert(s3 =~= s2) by {
            assert forall|i: int| 0 <= i < s2.len() implies s3[i] == s2[i] by {
                assert(reorder_sections(s2, order)[i] == gmap(s1)[i]);
                assert(s3[i].notes == scope_sort_notes(scope_sort_notes(s1[i].notes)));
                lemma_scope_sort_idempotent(s1[i].notes);
                assert(s3[i] =~= s2[i]);
            }
        }
        assert(sanitize_release_v(sanitize_release_v(r, order, scope), order, scope).sections
            =~= s3);
        assert(sanitize_release_v(sanitize_release_v(r, order, scope), order, scope)
            =~= sanitize_release_v(r, order, scope));
    }
}

/// LAW (sanitize idempotence): sanitizing a sanitized document changes
/// nothing.
pub proof fn lemma_sanitize_idempotent(c: ChangeLogV, order: Seq<Seq<char>>, scope: bool)
    requires
        crate::model::wf_changelog(c),
    ensures
        sanitize_changelog_v(sanitize_changelog_v(c, order, scope), order, scope)
            == sanitize_changelog_v(c, order, scope),
{
    let s1 = sanitize_changelog_v(c, order, scope);
    let s2 = sanitize_changelog_v(s1, order, scope);
    match c.unreleased {
        Some(u) => {
            lemma_sanitize_release_idempotent(u, order, scope);
        },
        None => {
            let d = crate::model::spec_default_unreleased();
            assert(dedup_sections(d.sections) =~= Seq::<SectionV>::empty());
            assert(remove_empty_sections(Seq::<SectionV>::empty()) =~= Seq::<
                SectionV,
            >::empty());
            lemma_reorder_empty(order);
            assert(sanitize_release_v(d, order, scope).sections =~= Seq::<SectionV>::empty());
            assert(sanitize_release_v(d, order, scope) =~= d);
        },
    }
    assert forall|i: int| 0 <= i < s2.releases.len() implies s2.releases[i]
        == s1.releases[i] by {
        assert(s1.releases[i].release == sanitize_release_v(
            c.releases[i].release,
            order,
            scope,
        ));
        assert(crate::model::wf_release(c.releases[i].release));
        lemma_sanitize_release_idempotent(c.releases[i].release, order, scope);
        assert(s2.releases[i] =~= s1.releases[i]);
    }
    assert(s2.releases =~= s1.releases);
    assert(s2 =~= s1);
}

/// Every note of the run carries exactly this scope.
spec fn all_scoped_to(notes: Seq<NoteV>, sc: Seq<char>) -> bool {
    forall|j: int| 0 <= j < notes.len() ==> (#[trigger] notes[j]).scope == Some(sc)
}

/// Every block holds only notes of its own scope.
spec fn block_wf(bs: Seq<BlockV>) -> bool {
    forall|k: int| 0 <= k < bs.len() ==> all_scoped_to((#[trigger] bs[k]).notes, bs[k].scope)
}

/// The blocks carry pairwise distinct scopes.
spec fn block_scopes_distinct(bs: Seq<BlockV>) -> bool {
    forall|k: int, l: int|
        0 <= k < l < bs.len() ==> (#[trigger] bs[k]).scope != (#[trigger] bs[l]).scope
}

/// Every block holds at least one note.
spec fn blocks_nonempty(bs: Seq<BlockV>) -> bool {
    forall|k: int| 0 <= k < bs.len() ==> (#[trigger] bs[k]).notes.len() > 0
}

/// Block sizes never grow along the run.
spec fn blocks_sorted(bs: Seq<BlockV>) -> bool {
    forall|k: int, l: int|
        0 <= k < l < bs.len() ==> (#[trigger] bs[k]).notes.len() >= (#[trigger] bs[l]).notes.len()
}

/// A scope in the encounter list belongs to some note.
proof fn lemma_ds_sound(n: Seq<NoteV>)
    ensures
        forall|sc: Seq<char>| #[trigger] distinct_scopes(n).contains(sc) ==> exists|i: int|
            0 <= i < n.len() && (#[trigger] n[i]).scope == Some(sc),
        distinct_scopes(n).no_duplicates(),
    decreases n.len(),
{
    if n.len() > 0 {
        lemma_ds_sound(n.drop_last());
        let r = distinct_scopes(n);
        let prev = distinct_scopes(n.drop_last());
        assert forall|sc: Seq<char>| #[trigger] r.contains(sc) implies exists|i: int|
            0 <= i < n.len() && (#[trigger] n[i]).scope == Some(sc) by {
            let k = choose|k: int| 0 <= k < r.len() && r[k] == sc;
            if k < prev.len() {
                assert(prev.contains(sc));
                let i = choose|i: int|
                    0 <= i < n.drop_last().len() && (#[trigger] n.drop_last()[i]).scope == Some(
                        sc,
                    );
                assert(n[i].scope == Some(sc));
            } else {
                assert(n[n.len() - 1].scope == Some(sc));
            }
        }
        match n.last().scope {
            Some(sc) => {
                if !prev.contains(sc) {
                    assert forall|k: int, l: int|
                        0 <= k < l < r.len() implies r[k] != r[l] by {
                        if l == r.len() - 1 {
                            assert(prev.contains(prev[k]));
                        }
                    }
                }
            },
            None => {},
        }
    }
}

/// The blocks of a run of notes are well formed: own-scoped, distinct, and
/// each non-empty.
proof fn lemma_blocks_of_wf(n: Seq<NoteV>)
    ensures
        block_wf(blocks_of(n)),
        block_scopes_distinct(blocks_of(n)),
        blocks_nonempty(blocks_of(n)),
{
    lemma_ds_sound(n);
    let bs = blocks_of(n);
    assert forall|k: int| 0 <= k < bs.len() implies all_scoped_to(
        (#[trigger] bs[k]).notes,
        bs[k].scope,
    ) && bs[k].notes.len() > 0 by {
        let sc = distinct_scopes(n)[k];
        assert(bs[k].notes == notes_with_scope(n, sc));
        lemma_nws_subset(n, sc);
        let bn = bs[k].notes;
        assert forall|j: int| 0 <= j < bn.len() implies (#[trigger] bn[j]).scope == Some(
            sc,
        ) by {
            assert(bn.contains(bn[j]));
        }
        assert(all_scoped_to(bs[k].notes, bs[k].scope));
        assert(distinct_scopes(n).contains(sc));
        let i = choose|i: int| 0 <= i < n.len() && (#[trigger] n[i]).scope == Some(sc);
        lemma_ds_complete(n, i);
        assert(notes_with_scope(n, sc).len() > 0);
    }
    assert forall|k: int, l: int| 0 <= k < l < bs.len() implies (#[trigger] bs[k]).scope != (
    #[trigger] bs[l]).scope by {
        assert(bs[k].scope == distinct_scopes(n)[k]);
        assert(bs[l].scope == distinct_scopes(n)[l]);
    }
}

/// Inserting keeps the run sorted by descending size.
proof fn lemma_insert_block_sorted(s: Seq<BlockV>, b: BlockV)
    requires
        blocks_sorted(s),
    ensures
        blocks_sorted(insert_block(s, b)),
    decreases s.len(),
{
    let r = insert_block(s, b);
    if s.len() == 0 {
    } else if s.last().notes.len() >= b.notes.len() {
        assert forall|k: int, l: int|
            0 <= k < l < r.len() implies (#[trigger] r[k]).notes.len()
            >= (#[trigger] r[l]).notes.len() by {
            if l == r.len() - 1 {
                if k < s.len() - 1 {
                    assert(s[k].notes.len() >= s[s.len() - 1].notes.len());
                }
            }
        }
    } else {
        assert(blocks_sorted(s.drop_last()));
        lemma_insert_block_sorted(s.drop_last(), b);
        lemma_insert_block_elems(s.drop_last(), b);
        let inner = insert_block(s.drop_last(), b);
        assert forall|k: int, l: int|
            0 <= k < l < r.len() implies (#[trigger] r[k]).notes.len()
            >= (#[trigger] r[l]).notes.len() by {
            if l == r.len() - 1 {
                assert(r[l] == s.last());
                assert(r[k] == inner[k]);
                assert(inner.contains(inner[k]));
                if inner[k] == b {
                } else {
                    let q = choose|q: int|
                        0 <= q < s.drop_last().len() && s.drop_last()[q] == inner[k];
                    assert(s[q] == inner[k]);
                    assert(s[q].notes.len() >= s[s.len() - 1].notes.len());
                }
            } else {
                assert(r[k] == inner[k] && r[l] == inner[l]);
            }
        }
    }
}

/// Sorting yields a run sorted by descending size, of the same blocks.
proof fn lemma_sort_blocks_sorted(bs: Seq<BlockV>)
    ensures
        blocks_sorted(sort_blocks(bs)),
        sort_blocks(bs).len() == bs.len(),
    decreases bs.len(),
{
    if bs.len() > 0 {
        lemma_sort_blocks_sorted(bs.drop_last());
        lemma_insert_block_sorted(sort_blocks(bs.drop_last()), bs.last());
        lemma_insert_block_len(sort_blocks(bs.drop_last()), bs.last());
    }
}

proof fn lemma_insert_block_len(s: Seq<BlockV>, b: BlockV)
    ensures
        insert_block(s, b).len() == s.len() + 1,
    decreases s.len(),
{
    if s.len() > 0 && s.last().notes.len() < b.notes.len() {
        lemma_insert_block_len(s.drop_last(), b);
    }
}

/// Sorting an already sorted run changes nothing.
proof fn lemma_sort_of_sorted(bs: Seq<BlockV>)
    requires
        blocks_sorted(bs),
    ensures
        sort_blocks(bs) == bs,
    decreases bs.len(),
{
    if bs.len() > 0 {
        assert(blocks_sorted(bs.drop_last()));
        lemma_sort_of_sorted(bs.drop_last());
        if bs.len() == 1 {
            assert(sort_blocks(bs) =~= bs);
        } else {
            assert(bs.drop_last().last().notes.len() >= bs.last().notes.len()) by {
                assert(bs[bs.len() - 2].notes.len() >= bs[bs.len() - 1].notes.len());
            }
            assert(insert_block(bs.drop_last(), bs.last()) == bs.drop_last().push(bs.last()));
            assert(sort_blocks(bs) =~= bs);
        }
    }
}

/// Properties carry over to the sorted run: its blocks are the same blocks.
proof fn lemma_sort_blocks_props(bs: Seq<BlockV>)
    requires
        block_wf(bs),
        block_scopes_distinct(bs),
        blocks_nonempty(bs),
    ensures
        block_wf(sort_blocks(bs)),
        block_scopes_distinct(sort_blocks(bs)),
        blocks_nonempty(sort_blocks(bs)),
{
    lemma_sort_blocks_elems(bs);
    let r = sort_blocks(bs);
    assert forall|k: int| 0 <= k < r.len() implies all_scoped_to(
        (#[trigger] r[k]).notes,
        r[k].scope,
    ) && r[k].notes.len() > 0 by {
        assert(r.contains(r[k]));
        assert(bs.contains(r[k]));
        let q = choose|q: int| 0 <= q < bs.len() && bs[q] == r[k];
    }
    lemma_sort_blocks_sorted(bs);
    assert forall|k: int, l: int| 0 <= k < l < r.len() implies (#[trigger] r[k]).scope != (
    #[trigger] r[l]).scope by {
        assert(r.contains(r[k]) && r.contains(r[l]));
        assert(bs.contains(r[k]) && bs.contains(r[l]));
        let qk = choose|qk: int| 0 <= qk < bs.len() && bs[qk] == r[k];
        let ql = choose|ql: int| 0 <= ql < bs.len() && bs[ql] == r[l];
        if r[k].scope == r[l].scope {
            if qk < ql {
                assert(bs[qk].scope != bs[ql].scope);
            } else if ql < qk {
                assert(bs[ql].scope != bs[qk].scope);
            } else {
                assert(r[k] == r[l]);
                lemma_sort_blocks_count(bs, r[k]);
                broadcast use vstd::seq_lib::group_to_multiset_ensures;
                broadcast use vstd::multiset::group_multiset_axioms;

                let r1 = r.remove(l);
                assert(r1.to_multiset() =~= r.to_multiset().remove(r[l]));
                assert(r1[k] == r[k]);
                assert(r1.contains(r[k]));
                assert(r1.to_multiset().count(r[k]) > 0);
                assert(r.to_multiset().count(r[k]) >= 2);
            }
        }
    }
}

/// Each block occurs at most once in the sorted run, counted as values.
proof fn lemma_sort_blocks_count(bs: Seq<BlockV>, b: BlockV)
    requires
        block_scopes_distinct(bs),
    ensures
        sort_blocks(bs).to_multiset().count(b) <= 1,
{
    lemma_sort_blocks_multiset(bs);
    lemma_distinct_blocks_count(bs, b);
}

/// Sorting permutes the blocks.
proof fn lemma_sort_blocks_multiset(bs: Seq<BlockV>)
    ensures
        sort_blocks(bs).to_multiset() =~= bs.to_multiset(),
    decreases bs.len(),
{
    broadcast use vstd::seq_lib::group_to_multiset_ensures;

    if bs.len() > 0 {
        lemma_sort_blocks_multiset(bs.drop_last());
        lemma_insert_block_multiset(sort_blocks(bs.drop_last()), bs.last());
        assert(bs =~= bs.drop_last().push(bs.last()));
        assert(bs.drop_last().push(bs.last()).to_multiset() =~= bs.drop_last()
            .to_multiset().insert(bs.last()));
    }
}

proof fn lemma_insert_block_multiset(s: Seq<BlockV>, b: BlockV)
    ensures
        insert_block(s, b).to_multiset() =~= s.to_multiset().insert(b),
    decreases s.len(),
{
    broadcast use vstd::seq_lib::group_to_multiset_ensures;

    if s.len() == 0 {
        assert(insert_block(s, b) =~= Seq::<BlockV>::empty().push(b));
        assert(s.to_multiset() =~= Multiset::<BlockV>::empty());
    } else if s.last().notes.len() >= b.notes.len() {
    } else {
        lemma_insert_block_multiset(s.drop_last(), b);
        assert(s =~= s.drop_last().push(s.last()));
        assert(s.to_multiset() =~= s.drop_last().to_multiset().insert(s.last()));
    }
}

/// Distinct-scoped blocks occur at most once each.
proof fn lemma_distinct_blocks_count(bs: Seq<BlockV>, b: BlockV)
    requires
        block_scopes_distinct(bs),
    ensures
        bs.to_multiset().count(b) <= 1,
    decreases bs.len(),
{
    broadcast use vstd::seq_lib::group_to_multiset_ensures;

    if bs.len() > 0 {
        assert(block_scopes_distinct(bs.drop_last()));
        lemma_distinct_blocks_count(bs.drop_last(), b);
        assert(bs =~= bs.drop_last().push(bs.last()));
        assert(bs.to_multiset() =~= bs.drop_last().to_multiset().insert(bs.last()));
        if b == bs.last() {
            assert(bs.drop_last().to_multiset().count(b) == 0) by {
                if bs.drop_last().to_multiset().count(b) > 0 {
                    assert(bs.drop_last().contains(b));
                    let q = choose|q: int|
                        0 <= q < bs.drop_last().len() && bs.drop_last()[q] == b;
                    assert(bs[q].scope != bs[bs.len() - 1].scope);
                }
            }
        }
    }
}

proof fn lemma_scopeless_concat(x: Seq<NoteV>, y: Seq<NoteV>)
    ensures
        scopeless_notes(x + y) == scopeless_notes(x) + scopeless_notes(y),
    decreases y.len(),
{
    if y.len() == 0 {
        assert(x + y =~= x);
        assert(scopeless_notes(x) + scopeless_notes(y) =~= scopeless_notes(x));
    } else {
        lemma_scopeless_concat(x, y.drop_last());
        assert((x + y).drop_last() =~= x + y.drop_last());
        assert((x + y).last() == y.last());
        if y.last().scope is None {
            assert(scopeless_notes(x) + scopeless_notes(y) =~= (scopeless_notes(x)
                + scopeless_notes(y.drop_last())).push(y.last()));
        }
    }
}

proof fn lemma_nws_concat(x: Seq<NoteV>, y: Seq<NoteV>, sc: Seq<char>)
    ensures
        notes_with_scope(x + y, sc) == notes_with_scope(x, sc) + notes_with_scope(y, sc),
    decreases y.len(),
{
    if y.len() == 0 {
        assert(x + y =~= x);
        assert(notes_with_scope(x, sc) + notes_with_scope(y, sc) =~= notes_with_scope(x, sc));
    } else {
        lemma_nws_concat(x, y.drop_last(), sc);
        assert((x + y).drop_last() =~= x + y.drop_last());
        assert((x + y).last() == y.last());
        if y.last().scope == Some(sc) {
            assert(notes_with_scope(x, sc) + notes_with_scope(y, sc) =~= (notes_with_scope(
                x,
                sc,
            ) + notes_with_scope(y.drop_last(), sc)).push(y.last()));
        }
    }
}

proof fn lemma_scopeless_of_scoped(n: Seq<NoteV>)
    requires
        forall|j: int| 0 <= j < n.len() ==> (#[trigger] n[j]).scope is Some,
    ensures
        scopeless_notes(n) == Seq::<NoteV>::empty(),
    decreases n.len(),
{
    if n.len() > 0 {
        assert(n[n.len() - 1].scope is Some);
        lemma_scopeless_of_scoped(n.drop_last());
    }
}

proof fn lemma_scopeless_of_none(n: Seq<NoteV>)
    requires
        forall|j: int| 0 <= j < n.len() ==> (#[trigger] n[j]).scope is None,
    ensures
        scopeless_notes(n) == n,
    decreases n.len(),
{
    if n.len() > 0 {
        assert(n[n.len() - 1].scope is None);
        lemma_scopeless_of_none(n.drop_last());
        assert(scopeless_notes(n) =~= n);
    }
}

proof fn lemma_nws_of_mismatch(n: Seq<NoteV>, sc: Seq<char>)
    requires
        forall|j: int| 0 <= j < n.len() ==> (#[trigger] n[j]).scope != Some(sc),
    ensures
        notes_with_scope(n, sc) == Seq::<NoteV>::empty(),
    decreases n.len(),
{
    if n.len() > 0 {
        assert(n[n.len() - 1].scope != Some(sc));
        lemma_nws_of_mismatch(n.drop_last(), sc);
    }
}

proof fn lemma_nws_of_match(n: Seq<NoteV>, sc: Seq<char>)
    requires
        all_scoped_to(n, sc),
    ensures
        notes_with_scope(n, sc) == n,
    decreases n.len(),
{
    if n.len() > 0 {
        assert(n[n.len() - 1].scope == Some(sc));
        lemma_nws_of_match(n.drop_last(), sc);
        assert(notes_with_scope(n, sc) =~= n);
    }
}

proof fn lemma_ds_append_none(x: Seq<NoteV>, t: Seq<NoteV>)
    requires
        forall|j: int| 0 <= j < t.len() ==> (#[trigger] t[j]).scope is None,
    ensures
        distinct_scopes(x + t) == distinct_scopes(x),
    decreases t.len(),
{
    if t.len() == 0 {
        assert(x + t =~= x);
    } else {
        assert(t[t.len() - 1].scope is None);
        lemma_ds_append_none(x, t.drop_last());
        assert((x + t).drop_last() =~= x + t.drop_last());
        assert((x + t).last() == t.last());
    }
}

proof fn lemma_ds_append_scoped(x: Seq<NoteV>, y: Seq<NoteV>, sc: Seq<char>)
    requires
        y.len() > 0,
        all_scoped_to(y, sc),
    ensures
        distinct_scopes(x + y) == (if distinct_scopes(x).contains(sc) {
            distinct_scopes(x)
        } else {
            distinct_scopes(x).push(sc)
        }),
    decreases y.len(),
{
    assert(y[y.len() - 1].scope == Some(sc));
    if y.len() == 1 {
        assert((x + y).drop_last() =~= x);
        assert((x + y).last() == y.last());
    } else {
        assert(all_scoped_to(y.drop_last(), sc)) by {
            assert(forall|j: int|
                0 <= j < y.drop_last().len() ==> (#[trigger] y.drop_last()[j]) == y[j]);
        }
        lemma_ds_append_scoped(x, y.drop_last(), sc);
        assert((x + y).drop_last() =~= x + y.drop_last());
        assert((x + y).last() == y.last());
        let target = if distinct_scopes(x).contains(sc) {
            distinct_scopes(x)
        } else {
            distinct_scopes(x).push(sc)
        };
        assert(target.contains(sc)) by {
            if !distinct_scopes(x).contains(sc) {
                assert(target.last() == sc);
            }
        }
    }
}

/// Every note of a flattened well-formed run carries some block's scope.
proof fn lemma_flatten_scoped(bs: Seq<BlockV>)
    requires
        block_wf(bs),
    ensures
        forall|j: int|
            0 <= j < flatten_blocks(bs).len() ==> (#[trigger] flatten_blocks(bs)[j]).scope
                is Some,
{
    lemma_flatten_membership(bs);
    assert forall|j: int| 0 <= j < flatten_blocks(bs).len() implies (
    #[trigger] flatten_blocks(bs)[j]).scope is Some by {
        assert(flatten_blocks(bs).contains(flatten_blocks(bs)[j]));
        let b = choose|b: BlockV|
            #[trigger] bs.contains(b) && b.notes.contains(flatten_blocks(bs)[j]);
        let q = choose|q: int| 0 <= q < bs.len() && bs[q] == b;
        let e = flatten_blocks(bs)[j];
        let w = choose|w: int| 0 <= w < b.notes.len() && b.notes[w] == e;
        assert(b.notes[w].scope == Some(b.scope));
    }
}

/// The scope of every note of the flattened run is the scope of the block
/// it came from.
proof fn lemma_flatten_scope_of(bs: Seq<BlockV>, e: NoteV)
    requires
        block_wf(bs),
        flatten_blocks(bs).contains(e),
    ensures
        exists|q: int| 0 <= q < bs.len() && Some((#[trigger] bs[q]).scope) == e.scope,
{
    lemma_flatten_membership(bs);
    let b = choose|b: BlockV| #[trigger] bs.contains(b) && b.notes.contains(e);
    let q = choose|q: int| 0 <= q < bs.len() && bs[q] == b;
    let w = choose|w: int| 0 <= w < b.notes.len() && b.notes[w] == e;
    assert(b.notes[w].scope == Some(b.scope));
    assert(Some(bs[q].scope) == e.scope);
}

/// The encounter list of a flattened well-formed run is the blocks' scopes.
proof fn lemma_ds_flatten(bs: Seq<BlockV>)
    requires
        block_wf(bs),
        block_scopes_distinct(bs),
        blocks_nonempty(bs),
    ensures
        distinct_scopes(flatten_blocks(bs)) == bs.map_values(|b: BlockV| b.scope),
    decreases bs.len(),
{
    if bs.len() == 0 {
        assert(distinct_scopes(flatten_blocks(bs)) =~= bs.map_values(|b: BlockV| b.scope));
    } else {
        let drop = bs.drop_last();
        assert(block_wf(drop) && block_scopes_distinct(drop) && blocks_nonempty(drop)) by {
            assert(forall|k: int| 0 <= k < drop.len() ==> (#[trigger] drop[k]) == bs[k]);
        }
        lemma_ds_flatten(drop);
        let sc = bs.last().scope;
        lemma_ds_append_scoped(flatten_blocks(drop), bs.last().notes, sc);
        assert(!distinct_scopes(flatten_blocks(drop)).contains(sc)) by {
            if distinct_scopes(flatten_blocks(drop)).contains(sc) {
                let scopes = drop.map_values(|b: BlockV| b.scope);
                let q = choose|q: int| 0 <= q < scopes.len() && scopes[q] == sc;
                assert(drop[q].scope == sc);
                assert(bs[q].scope != bs[bs.len() - 1].scope);
            }
        }
        assert(distinct_scopes(flatten_blocks(bs)) =~= bs.map_values(|b: BlockV| b.scope));
    }
}

/// The notes of each scope in a flattened well-formed run are that block's
/// notes.
proof fn lemma_nws_flatten(bs: Seq<BlockV>, k: int)
    requires
        block_wf(bs),
        block_scopes_distinct(bs),
        0 <= k < bs.len(),
    ensures
        notes_with_scope(flatten_blocks(bs), bs[k].scope) == bs[k].notes,
    decreases bs.len(),
{
    let drop = bs.drop_last();
    assert(block_wf(drop) && block_scopes_distinct(drop)) by {
        assert(forall|q: int| 0 <= q < drop.len() ==> (#[trigger] drop[q]) == bs[q]);
    }
    let sc = bs[k].scope;
    lemma_nws_concat(flatten_blocks(drop), bs.last().notes, sc);
    if k == bs.len() - 1 {
        lemma_nws_of_match(bs.last().notes, sc);
        assert(notes_with_scope(flatten_blocks(drop), sc) == Seq::<NoteV>::empty()) by {
            assert forall|j: int| 0 <= j < flatten_blocks(drop).len() implies (
            #[trigger] flatten_blocks(drop)[j]).scope != Some(sc) by {
                assert(flatten_blocks(drop).contains(flatten_blocks(drop)[j]));
                lemma_flatten_scope_of(drop, flatten_blocks(drop)[j]);
                let q = choose|q: int|
                    0 <= q < drop.len() && Some((#[trigger] drop[q]).scope)
                        == flatten_blocks(drop)[j].scope;
                assert(bs[q].scope != bs[bs.len() - 1].scope);
            }
            lemma_nws_of_mismatch(flatten_blocks(drop), sc);
        }
        assert(notes_with_scope(flatten_blocks(bs), sc) =~= bs[k].notes);
    } else {
        lemma_nws_flatten(drop, k);
        assert(notes_with_scope(bs.last().notes, sc) == Seq::<NoteV>::empty()) by {
            assert(bs[k].scope != bs[bs.len() - 1].scope);
            assert(forall|j: int|
                0 <= j < bs.last().notes.len() ==> (#[trigger] bs.last().notes[j]).scope
                    == Some(bs.last().scope));
            lemma_nws_of_mismatch(bs.last().notes, sc);
        }
        assert(drop[k] == bs[k]);
        assert(notes_with_scope(flatten_blocks(bs), sc) =~= bs[k].notes);
    }
}

/// LAW (scope grouping idempotence): grouping grouped notes changes
/// nothing.
pub proof fn lemma_scope_sort_idempotent(n: Seq<NoteV>)
    ensures
        scope_sort_notes(scope_sort_notes(n)) == scope_sort_notes(n),
{
    let bs0 = blocks_of(n);
    let bs = sort_blocks(bs0);
    let t = scopeless_notes(n);
    let f = flatten_blocks(bs);
    let m = scope_sort_notes(n);
    lemma_blocks_of_wf(n);
    lemma_sort_blocks_props(bs0);
    lemma_sort_blocks_sorted(bs0);
    lemma_scopeless_subset(n);
    assert(forall|j: int| 0 <= j < t.len() ==> (#[trigger] t[j]).scope is None) by {
        assert(forall|j: int| 0 <= j < t.len() ==> t.contains(#[trigger] t[j]));
    }
    // The encounter list of the grouped run is the sorted blocks' scopes.
    lemma_ds_append_none(f, t);
    lemma_ds_flatten(bs);
    assert(distinct_scopes(m) == bs.map_values(|b: BlockV| b.scope));
    // Each scope's notes in the grouped run are its block's notes.
    assert forall|k: int| 0 <= k < bs.len() implies blocks_of(m)[k] == bs[k] by {
        let sc = bs[k].scope;
        assert(distinct_scopes(m)[k] == sc);
        lemma_nws_concat(f, t, sc);
        lemma_nws_of_mismatch(t, sc);
        lemma_nws_flatten(bs, k);
        assert(notes_with_scope(m, sc) =~= bs[k].notes);
        assert(blocks_of(m)[k] =~= bs[k]);
    }
    assert(blocks_of(m) =~= bs);
    lemma_sort_of_sorted(bs);
    // The scopeless tail of the grouped run is the original tail.
    lemma_scopeless_concat(f, t);
    lemma_flatten_scoped(bs);
    lemma_scopeless_of_scoped(f);
    lemma_scopeless_of_none(t);
    assert(scopeless_notes(m) =~= t);
    assert(scope_sort_notes(m) =~= m);
}

/// Blocks with notes drawn from a duplicate-free run keep their notes
/// duplicate-free.
proof fn lemma_nws_nodup(n: Seq<NoteV>, sc: Seq<char>)
    requires
        n.no_duplicates(),
    ensures
        notes_with_scope(n, sc).no_duplicates(),
    decreases n.len(),
{
    if n.len() > 0 {
        assert(n.drop_last().no_duplicates());
        lemma_nws_nodup(n.drop_last(), sc);
        lemma_nws_subset(n.drop_last(), sc);
        if n.last().scope == Some(sc) {
            assert(!n.drop_last().contains(n.last())) by {
                if n.drop_last().contains(n.last()) {
                    let q = choose|q: int|
                        0 <= q < n.drop_last().len() && n.drop_last()[q] == n.last();
                    assert(n[q] == n[n.len() - 1]);
                }
            }
            let r = notes_with_scope(n, sc);
            let prev = notes_with_scope(n.drop_last(), sc);
            assert forall|a: int, b: int|
                0 <= a < b < r.len() implies r[a] != r[b] by {
                if b == r.len() - 1 {
                    assert(prev.contains(prev[a]));
                }
            }
        }
    }
}

proof fn lemma_scopeless_nodup(n: Seq<NoteV>)
    requires
        n.no_duplicates(),
    ensures
        scopeless_notes(n).no_duplicates(),
    decreases n.len(),
{
    if n.len() > 0 {
        assert(n.drop_last().no_duplicates());
        lemma_scopeless_nodup(n.drop_last());
        lemma_scopeless_subset(n.drop_last());
        if n.last().scope is None {
            assert(!n.drop_last().contains(n.last())) by {
                if n.drop_last().contains(n.last()) {
                    let q = choose|q: int|
                        0 <= q < n.drop_last().len() && n.drop_last()[q] == n.last();
                    assert(n[q] == n[n.len() - 1]);
                }
            }
            let r = scopeless_notes(n);
            let prev = scopeless_notes(n.drop_last());
            assert forall|a: int, b: int|
                0 <= a < b < r.len() implies r[a] != r[b] by {
                if b == r.len() - 1 {
                    assert(prev.contains(prev[a]));
                }
            }
        }
    }
}

proof fn lemma_concat_nodup(x: Seq<NoteV>, y: Seq<NoteV>)
    requires
        x.no_duplicates(),
        y.no_duplicates(),
        forall|e: NoteV| #[trigger] x.contains(e) ==> !y.contains(e),
    ensures
        (x + y).no_duplicates(),
{
    assert forall|a: int, b: int|
        0 <= a < b < (x + y).len() implies (x + y)[a] != (x + y)[b] by {
        if a < x.len() && b >= x.len() {
            assert(x.contains(x[a]));
            if (x + y)[a] == (x + y)[b] {
                assert(y[b - x.len()] == x[a]);
                assert(y.contains(x[a]));
            }
        }
    }
}

proof fn lemma_flatten_nodup(bs: Seq<BlockV>)
    requires
        block_wf(bs),
        block_scopes_distinct(bs),
        forall|k: int| 0 <= k < bs.len() ==> (#[trigger] bs[k]).notes.no_duplicates(),
    ensures
        flatten_blocks(bs).no_duplicates(),
    decreases bs.len(),
{
    if bs.len() > 0 {
        let drop = bs.drop_last();
        assert(block_wf(drop) && block_scopes_distinct(drop) && forall|k: int|
            0 <= k < drop.len() ==> (#[trigger] drop[k]).notes.no_duplicates()) by {
            assert(forall|k: int| 0 <= k < drop.len() ==> (#[trigger] drop[k]) == bs[k]);
        }
        lemma_flatten_nodup(drop);
        assert forall|e: NoteV| #[trigger] flatten_blocks(drop).contains(e) implies !bs.last()
            .notes.contains(e) by {
            lemma_flatten_scope_of(drop, e);
            let q = choose|q: int|
                0 <= q < drop.len() && Some((#[trigger] drop[q]).scope) == e.scope;
            assert(bs[q].scope != bs[bs.len() - 1].scope);
            if bs.last().notes.contains(e) {
                let w = choose|w: int|
                    0 <= w < bs.last().notes.len() && bs.last().notes[w] == e;
                assert(bs.last().notes[w].scope == Some(bs.last().scope));
            }
        }
        lemma_concat_nodup(flatten_blocks(drop), bs.last().notes);
    }
}

/// Grouping keeps a duplicate-free run duplicate-free.
proof fn lemma_scope_sort_nodup(n: Seq<NoteV>)
    requires
        n.no_duplicates(),
    ensures
        scope_sort_notes(n).no_duplicates(),
{
    let bs0 = blocks_of(n);
    let bs = sort_blocks(bs0);
    lemma_blocks_of_wf(n);
    lemma_sort_blocks_props(bs0);
    lemma_sort_blocks_elems(bs0);
    assert(forall|k: int| 0 <= k < bs0.len() ==> (#[trigger] bs0[k]).notes.no_duplicates())
        by {
        assert forall|k: int|
            0 <= k < bs0.len() implies (#[trigger] bs0[k]).notes.no_duplicates() by {
            assert(bs0[k].notes == notes_with_scope(n, distinct_scopes(n)[k]));
            lemma_nws_nodup(n, distinct_scopes(n)[k]);
        }
    }
    assert forall|k: int| 0 <= k < bs.len() implies (#[trigger] bs[k]).notes.no_duplicates() by {
        assert(bs.contains(bs[k]));
        assert(bs0.contains(bs[k]));
        let q = choose|q: int| 0 <= q < bs0.len() && bs0[q] == bs[k];
    }
    lemma_flatten_nodup(bs);
    lemma_scopeless_nodup(n);
    lemma_scopeless_subset(n);
    lemma_flatten_scoped(bs);
    assert forall|e: NoteV| #[trigger] flatten_blocks(bs).contains(e) implies !scopeless_notes(
        n,
    ).contains(e) by {
        let j = choose|j: int|
            0 <= j < flatten_blocks(bs).len() && flatten_blocks(bs)[j] == e;
        assert(flatten_blocks(bs)[j].scope is Some);
    }
    lemma_concat_nodup(flatten_blocks(bs), scopeless_notes(n));
}

/// LAW (no empties after sanitizing a release): in a sanitized release
/// every section holds at least one note, and every note a non-empty
/// message.
pub proof fn lemma_sanitize_release_no_empties(r: ReleaseV, order: Seq<Seq<char>>, scope: bool)
    ensures
        no_empties(sanitize_release_v(r, order, scope).sections),
{
    let cleaned = remove_empty_sections(dedup_sections(r.sections));
    lemma_remove_empty_no_empties(dedup_sections(r.sections));
    let reordered = reorder_sections(cleaned, order);
    lemma_reorder_subset(cleaned, order);
    assert forall|i: int| 0 <= i < reordered.len() implies (#[trigger] reordered[i]).notes.len()
        > 0 && all_nonempty(reordered[i].notes) by {
        assert(reordered.contains(reordered[i]));
        assert(cleaned.contains(reordered[i]));
        let k = choose|k: int| 0 <= k < cleaned.len() && cleaned[k] == reordered[i];
    }
    if scope {
        let target = sanitize_release_v(r, order, scope).sections;
        assert forall|i: int| 0 <= i < target.len() implies (#[trigger] target[i]).notes.len()
            > 0 && all_nonempty(target[i].notes) by {
            assert(target[i].notes == scope_sort_notes(reordered[i].notes));
            lemma_scope_sort_notes_facts(reordered[i].notes);
            let tn = target[i].notes;
            assert forall|j: int| 0 <= j < tn.len() implies (#[trigger] tn[j]).message.len()
                > 0 by {
                assert(tn.contains(tn[j]));
                assert(reordered[i].notes.contains(tn[j]));
                let q = choose|q: int|
                    0 <= q < reordered[i].notes.len() && reordered[i].notes[q] == tn[j];
            }
            assert(all_nonempty(target[i].notes));
        }
    }
}

/// LAW (no empties after sanitizing): in a sanitized document, the staging
/// release and every stored release hold no empty note and no empty
/// section.
pub proof fn lemma_sanitize_no_empties(c: ChangeLogV, order: Seq<Seq<char>>, scope: bool)
    ensures
        ({
            let s = sanitize_changelog_v(c, order, scope);
            &&& (s.unreleased matches Some(u) ==> no_empties(u.sections))
            &&& forall|i: int|
                0 <= i < s.releases.len() ==> no_empties(
                    (#[trigger] s.releases[i]).release.sections,
                )
        }),
{
    let s = sanitize_changelog_v(c, order, scope);
    match c.unreleased {
        Some(u) => {
            lemma_sanitize_release_no_empties(u, order, scope);
        },
        None => {
            assert(s.unreleased->0.sections.len() == 0);
        },
    }
    assert forall|i: int| 0 <= i < s.releases.len() implies no_empties(
        (#[trigger] s.releases[i]).release.sections,
    ) by {
        assert(s.releases[i].release == sanitize_release_v(c.releases[i].release, order, scope));
        lemma_sanitize_release_no_empties(c.releases[i].release, order, scope);
    }
}

/// A run without newline or closing bracket ends exactly at the first of
/// either.
proof fn lemma_ver_scan_run(s: Seq<char>, i: int, j: int)
    requires
        0 <= i <= j <= s.len(),
        forall|k: int| i <= k < j ==> (#[trigger] s[k]) != '\n' && s[k] != ']',
        j == s.len() || s[j] == '\n' || s[j] == ']',
    ensures
        ver_scan(s, i) == j,
    decreases j - i,
{
    if i < j {
        assert(s[i] != '\n' && s[i] != ']');
        lemma_ver_scan_run(s, i + 1, j);
    }
}

/// A run without newline ends exactly at the first one.
proof fn lemma_nl_scan_run(s: Seq<char>, i: int, j: int)
    requires
        0 <= i <= j <= s.len(),
        forall|k: int| i <= k < j ==> (#[trigger] s[k]) != '\n',
        j == s.len() || s[j] == '\n',
    ensures
        nl_scan(s, i) == j,
    decreases j - i,
{
    if i < j {
        assert(s[i] != '\n');
        lemma_nl_scan_run(s, i + 1, j);
    }
}

/// LAW (link round trip): a reference link line the formatter emits parses
/// back to the same link, whatever text follows the line. The label must be
/// a non-empty trimmed text without newline or closing bracket, the url a
/// non-empty trimmed text without newline — which is what the grammar can
/// ever produce for them.
pub proof fn lemma_link_round_trip(l: LinkV, rest: Seq<char>)
    requires
        l.text.len() > 0,
        is_trimmed(l.text),
        forall|k: int| 0 <= k < l.text.len() ==> (#[trigger] l.text[k]) != '\n' && l.text[k]
            != ']',
        l.link.len() > 0,
        is_trimmed(l.link),
        forall|k: int| 0 <= k < l.link.len() ==> (#[trigger] l.link[k]) != '\n',
    ensures
        ({
            let line = fmt_links(seq![l], 0);
            p_link(line + rest, 0) == Some((l, line.len() as int))
        }),
{
    reveal_strlit("[");
    reveal_strlit("]: ");
    reveal_strlit("\n");
    let line = fmt_links(seq![l], 0);
    assert(fmt_links(seq![l], 1) =~= Seq::<char>::empty());
    assert(line =~= "["@ + l.text + "]: "@ + l.link + "\n"@);
    let tl = l.text.len() as int;
    let ul = l.link.len() as int;
    let s = line + rest;
    assert(line.len() == tl + ul + 5);
    assert(s[0] == '[');
    assert forall|k: int| 1 <= k < 1 + tl implies (#[trigger] s[k]) != '\n' && s[k]
        != ']' by {
        assert(s[k] == l.text[k - 1]);
    }
    assert(s[1 + tl] == ']');
    lemma_ver_scan_run(s, 1, 1 + tl);
    let te = 1 + tl;
    assert(crate::text::occurs_at(s, "]: "@, te)) by {
        assert(s.subrange(te, te + 3) =~= "]: "@);
    }
    let u0 = te + 3;
    assert forall|k: int| u0 <= k < u0 + ul implies (#[trigger] s[k]) != '\n' by {
        assert(s[k] == l.link[k - u0]);
    }
    assert(s[u0 + ul] == '\n');
    lemma_nl_scan_run(s, u0, u0 + ul);
    let ue = u0 + ul;
    assert(s.subrange(1, te) =~= l.text);
    assert(s.subrange(u0, ue) =~= l.link);
    lemma_trim_identity(l.text);
    lemma_trim_identity(l.link);
    assert((p_link(s, 0)->0).0 =~= l);
    assert(ue + 1 == line.len());
}

/// A run without newline or closing parenthesis ends exactly at the first
/// of either.
proof fn lemma_link_scan_run(s: Seq<char>, i: int, j: int)
    requires
        0 <= i <= j <= s.len(),
        forall|k: int| i <= k < j ==> (#[trigger] s[k]) != '\n' && s[k] != ')',
        j == s.len() || s[j] == '\n' || s[j] == ')',
    ensures
        link_scan(s, i) == j,
    decreases j - i,
{
    if i < j {
        assert(s[i] != '\n' && s[i] != ')');
        lemma_link_scan_run(s, i + 1, j);
    }
}

/// LAW (title round trip): a release title line the formatter emits parses
/// back to the same title, whatever text follows the line; the parse stops
/// right before the line's newline. The version must be a non-empty trimmed
/// text without newline or closing bracket, an attached link non-empty and
/// trimmed without newline or closing parenthesis, a human title non-empty
/// and trimmed without newline or closing bracket — which is what the
/// grammar can ever produce for them.
pub proof fn lemma_title_round_trip(t: TitleV, rest: Seq<char>)
    requires
        t.version.len() > 0,
        is_trimmed(t.version),
        forall|k: int| 0 <= k < t.version.len() ==> (#[trigger] t.version[k]) != '\n'
            && t.version[k] != ']',
        t.release_link matches Some(lk) ==> lk.len() > 0 && is_trimmed(lk) && forall|k: int|
            0 <= k < lk.len() ==> (#[trigger] lk[k]) != '\n' && lk[k] != ')',
        t.title matches Some(x) ==> x.len() > 0 && is_trimmed(x) && forall|k: int|
            0 <= k < x.len() ==> (#[trigger] x[k]) != '\n' && x[k] != ']',
    ensures
        ({
            let line = fmt_title_line(t);
            p_title(line + rest, 0) == Some((t, line.len() - 1))
        }),
{
    reveal_strlit("## [");
    reveal_strlit("]");
    reveal_strlit("(");
    reveal_strlit(")");
    reveal_strlit(" - ");
    reveal_strlit("\n");
    let line = fmt_title_line(t);
    let s = line + rest;
    let vl = t.version.len() as int;
    assert(crate::text::occurs_at(s, "## ["@, 0)) by {
        assert(s.subrange(0, 4) =~= "## ["@);
    }
    assert forall|k: int| 4 <= k < 4 + vl implies (#[trigger] s[k]) != '\n' && s[k]
        != ']' by {
        assert(s[k] == t.version[k - 4]);
    }
    assert(s[4 + vl] == ']');
    lemma_ver_scan_run(s, 4, 4 + vl);
    let ve = 4 + vl;
    let p1 = ve + 1;
    assert(s.subrange(4, ve) =~= t.version);
    lemma_trim_identity(t.version);
    match t.release_link {
        Some(lk) => {
            let ll = lk.len() as int;
            assert(s[p1] == '(');
            assert forall|k: int| p1 + 1 <= k < p1 + 1 + ll implies (#[trigger] s[k]) != '\n'
                && s[k] != ')' by {
                assert(s[k] == lk[k - p1 - 1]);
            }
            assert(s[p1 + 1 + ll] == ')');
            lemma_link_scan_run(s, p1 + 1, p1 + 1 + ll);
            let le = p1 + 1 + ll;
            assert(s.subrange(p1 + 1, le) =~= lk);
            lemma_trim_identity(lk);
            let p2 = le + 1;
            finish_title(t, rest, p2);
        },
        None => {
            assert(s[p1] != '(') by {
                match t.title {
                    Some(_) => {
                        assert(s[p1] == ' ');
                    },
                    None => {
                        assert(s[p1] == '\n');
                    },
                }
            }
            finish_title(t, rest, p1);
        },
    }
}

/// The optional human-title tail of a rendered title line, from the
/// position right after the version (and link, if any).
proof fn finish_title(t: TitleV, rest: Seq<char>, p2: int)
    requires
        t.version.len() > 0,
        forall|k: int| 0 <= k < t.version.len() ==> (#[trigger] t.version[k]) != '\n'
            && t.version[k] != ']',
        t.title matches Some(x) ==> x.len() > 0 && is_trimmed(x) && forall|k: int|
            0 <= k < x.len() ==> (#[trigger] x[k]) != '\n' && x[k] != ']',
        p2 == 5 + t.version.len() + (match t.release_link {
            Some(lk) => lk.len() + 2,
            None => 0,
        }),
    ensures
        ({
            let s = fmt_title_line(t) + rest;
            let title_res = if crate::text::occurs_at(s, " - "@, p2) {
                let te = ver_scan(s, p2 + 3);
                if te > p2 + 3 {
                    Some((crate::text::trim(s.subrange(p2 + 3, te)), te))
                } else {
                    None
                }
            } else {
                None
            };
            &&& (match (title_res, t.title) {
                (Some(got), Some(x)) => got.0 == x && got.1 == fmt_title_line(t).len() - 1,
                (None, None) => p2 == fmt_title_line(t).len() - 1,
                _ => false,
            })
        }),
{
    reveal_strlit("## [");
    reveal_strlit("]");
    reveal_strlit("(");
    reveal_strlit(")");
    reveal_strlit(" - ");
    reveal_strlit("\n");
    let line = fmt_title_line(t);
    let s = line + rest;
    match t.title {
        Some(x) => {
            let xl = x.len() as int;
            assert(crate::text::occurs_at(s, " - "@, p2)) by {
                assert(s.subrange(p2, p2 + 3) =~= " - "@);
            }
            assert forall|k: int| p2 + 3 <= k < p2 + 3 + xl implies (#[trigger] s[k]) != '\n'
                && s[k] != ']' by {
                assert(s[k] == x[k - p2 - 3]);
            }
            assert(s[p2 + 3 + xl] == '\n');
            lemma_ver_scan_run(s, p2 + 3, p2 + 3 + xl);
            assert(s.subrange(p2 + 3, p2 + 3 + xl) =~= x);
            lemma_trim_identity(x);
        },
        None => {
            assert(s[p2] == '\n');
            assert(!crate::text::occurs_at(s, " - "@, p2)) by {
                if crate::text::occurs_at(s, " - "@, p2) {
                    assert(s.subrange(p2, p2 + 3)[0] == s[p2]);
                }
            }
        },
    }
}

} // verus!
