use crate::byte_offset;
use crate::link_laws;
use crate::link_parser;
use crate::link_path;
use crate::link_rewrite;
use crate::link_rewrite::{EditView, Job, Relocation};
use crate::link_target;
use crate::markdown::{NodeKindView, NodeView};
use crate::text;
use vstd::prelude::*;

verus! {

/// The note that the node at place `i` of the note at `source_path` leads to, if it is a link that
/// leads to one.
pub open spec fn linked_note(nodes: Seq<NodeView>, i: int, source_path: Seq<char>) -> Option<
    Seq<char>,
> {
    match nodes[i].kind {
        NodeKindView::Link(url) => if link_target::external_url(url) {
            None
        } else {
            link_parser::markdown_link_note(url, source_path)
        },
        NodeKindView::WikiLink(url) => if link_parser::embedded(nodes, i) {
            None
        } else {
            link_parser::wiki_link_note(url, source_path)
        },
        _ => None,
    }
}

/// Only a link that leads to a note is ever rewritten: a link to the web, an embed and any other
/// node stay as they are.
pub proof fn law_only_note_links_are_planned(m: Relocation, nodes: Seq<NodeView>, i: int)
    ensures
        linked_note(nodes, i, m.old_source) is None ==> link_rewrite::planned(m, nodes, i) is None,
{
}

/// A link to a note that has moved is always planned anew, and one to a note that has not moved
/// stays as it is while the note that holds it stays where it is.
pub proof fn law_moved_targets_are_planned(m: Relocation, nodes: Seq<NodeView>, i: int)
    requires
        linked_note(nodes, i, m.old_source) is Some,
    ensures
        m.moved.contains_key(linked_note(nodes, i, m.old_source)->0) ==> link_rewrite::planned(
            m,
            nodes,
            i,
        ) is Some,
        !m.moved.contains_key(linked_note(nodes, i, m.old_source)->0) && m.old_source
            == m.new_source ==> link_rewrite::planned(m, nodes, i) is None,
{
}

/// A wiki link that is written from the vault root stays as it is when only the note that holds it
/// moves.
pub proof fn law_vault_wiki_link_stays(m: Relocation, url: Seq<char>, target: Seq<char>)
    requires
        link_target::wiki_link_target(url) == Some(target),
        !link_path::note_relative(target),
        match link_path::wiki_target(m.old_source, target) {
            Some(note) => !m.moved.contains_key(note),
            None => true,
        },
    ensures
        link_rewrite::new_wiki(m, url) is None,
{
}

/// A Markdown link that is written from the vault root stays as it is when only the note that
/// holds it moves.
pub proof fn law_vault_markdown_link_stays(m: Relocation, url: Seq<char>, target: Seq<char>)
    requires
        link_target::internal_markdown_target(url) == Some(target),
        !link_path::note_relative(target),
        match link_path::wiki_target(m.old_source, target) {
            Some(note) => !m.moved.contains_key(note),
            None => true,
        },
    ensures
        link_rewrite::new_href(m, url) is None,
{
}

/// A note that has not moved, and none of whose links leads to a note that has, is left as it is.
pub proof fn law_untouched_note_is_unchanged(job: Job, nodes: Seq<NodeView>)
    requires
        job.relocation.old_source == job.relocation.new_source,
        forall|i: int|
            0 <= i < nodes.len() ==> match #[trigger] linked_note(
                nodes,
                i,
                job.relocation.old_source,
            ) {
                Some(note) => !job.relocation.moved.contains_key(note),
                None => true,
            },
    ensures
        link_rewrite::rewritable(job, nodes),
        link_rewrite::all_edits(job, nodes).len() == 0,
        link_rewrite::rewritten(job, nodes) == job.markdown,
{
    let m = job.relocation;
    assert forall|i: int| 0 <= i < nodes.len() implies link_rewrite::planned(m, nodes, i) is None by {
        let note = linked_note(nodes, i, m.old_source);
    }
    lemma_no_edits(job, nodes, nodes.len() as int);
    assert(link_rewrite::all_edits(job, nodes) =~= Seq::<EditView>::empty());
    assert forall|i: int| 0 <= i < nodes.len() implies #[trigger] link_rewrite::cuts_cleanly(
        job,
        nodes,
        i,
    ) by {
        assert(link_rewrite::planned(m, nodes, i) is None);
    }
}

proof fn lemma_no_edits(job: Job, nodes: Seq<NodeView>, n: int)
    requires
        n <= nodes.len(),
        forall|i: int|
            0 <= i < nodes.len() ==> link_rewrite::planned(job.relocation, nodes, i) is None,
    ensures
        link_rewrite::edits_among(job, nodes, n) == Seq::<EditView>::empty(),
    decreases n,
{
    if n > 0 {
        lemma_no_edits(job, nodes, n - 1);
        assert(link_rewrite::planned(job.relocation, nodes, n - 1) is None);
    }
}

/// A rewritten wiki link leads, from where its note is now, to where the note that it led to is
/// now.
pub proof fn law_rewritten_wiki_link_leads_to_its_note(
    m: Relocation,
    url: Seq<char>,
    target: Seq<char>,
    old_note: Seq<char>,
    new_note: Seq<char>,
)
    requires
        link_target::wiki_link_target(url) == Some(target),
        link_path::wiki_target(m.old_source, target) == Some(old_note),
        link_rewrite::new_target(m, old_note, link_path::note_relative(target)) == Some(new_note),
        link_laws::plain_note(new_note),
        !link_path::note_relative(target) || link_path::parent_of(m.new_source).len() == 0
            ==> new_note != ".md"@,
        link_path::note_relative(target) ==> link_laws::plain_dir(
            link_path::parent_of(m.new_source),
        ),
        link_path::note_relative(target) ==> !text::split_on(
            link_path::without_md(new_note),
            '/',
        ).is_prefix_of(link_path::dir_segments(link_path::parent_of(m.new_source))),
    ensures
        match link_rewrite::new_wiki(m, url) {
            Some(written) => link_path::wiki_target(m.new_source, written) == Some(new_note),
            None => false,
        },
{
    link_laws::law_wiki_text_leads_back(
        m.new_source,
        new_note,
        link_path::note_relative(target),
    );
}

/// A rewritten wiki link keeps its form: one that was written relative to its note is written so
/// again, unless its note comes to lie in the vault root, and one that was written from the vault
/// root is written so again.
pub proof fn law_rewritten_wiki_link_keeps_its_form(
    m: Relocation,
    url: Seq<char>,
    target: Seq<char>,
    old_note: Seq<char>,
    new_note: Seq<char>,
)
    requires
        link_target::wiki_link_target(url) == Some(target),
        link_path::wiki_target(m.old_source, target) == Some(old_note),
        link_rewrite::new_target(m, old_note, link_path::note_relative(target)) == Some(new_note),
        link_laws::plain_path(new_note),
    ensures
        match link_rewrite::new_wiki(m, url) {
            Some(written) => link_path::note_relative(written) == (link_path::note_relative(target)
                && link_path::parent_of(m.new_source).len() > 0),
            None => false,
        },
{
    link_laws::law_wiki_text_has_the_form_asked_for(
        m.new_source,
        new_note,
        link_path::note_relative(target),
    );
}

/// A rewritten Markdown link leads, from the directory of its note or, where it was written so,
/// from the vault root, to where the note that it led to is now.
pub proof fn law_rewritten_markdown_link_leads_to_its_note(
    m: Relocation,
    url: Seq<char>,
    target: Seq<char>,
    old_note: Seq<char>,
    new_note: Seq<char>,
)
    requires
        !link_target::external_url(url),
        link_target::internal_markdown_target(url) == Some(target),
        link_path::wiki_target(m.old_source, target) == Some(old_note),
        link_rewrite::new_target(m, old_note, link_path::note_relative(target)) == Some(new_note),
        link_laws::plain_path(new_note),
        !link_path::note_relative(target) ==> link_path::has_md_extension(new_note),
        link_path::note_relative(target) ==> link_laws::plain_dir(
            link_path::parent_of(m.new_source),
        ),
    ensures
        match link_rewrite::new_href(m, url) {
            Some(written) => if link_path::note_relative(target) {
                link_path::resolved_path(link_path::parent_of(m.new_source), written) == Some(
                    new_note,
                )
            } else {
                link_path::wiki_target(m.new_source, written) == Some(new_note)
            },
            None => false,
        },
{
    if link_path::note_relative(target) {
        link_laws::law_markdown_href_leads_back(m.new_source, new_note);
    } else {
        link_laws::law_vault_path_is_read_back(m.new_source, new_note);
    }
}

/// What a rewritten wiki link holds is read back, in the note where it is now, as a link to where
/// the note that it led to is now.
pub proof fn law_rewritten_wiki_link_is_read_back(
    m: Relocation,
    url: Seq<char>,
    target: Seq<char>,
    old_note: Seq<char>,
    new_note: Seq<char>,
    written: Seq<char>,
)
    requires
        link_target::wiki_link_target(url) == Some(target),
        link_path::wiki_target(m.old_source, target) == Some(old_note),
        link_rewrite::new_target(m, old_note, link_path::note_relative(target)) == Some(new_note),
        link_laws::plain_note(new_note),
        !link_path::note_relative(target) || link_path::parent_of(m.new_source).len() == 0
            ==> new_note != ".md"@,
        link_path::note_relative(target) ==> link_laws::plain_dir(
            link_path::parent_of(m.new_source),
        ),
        link_path::note_relative(target) ==> !text::split_on(
            link_path::without_md(new_note),
            '/',
        ).is_prefix_of(link_path::dir_segments(link_path::parent_of(m.new_source))),
        link_rewrite::new_wiki(m, url) == Some(written),
        link_target::stands_for_itself(written),
    ensures
        link_parser::wiki_link_note(written, m.new_source) == Some(new_note),
{
    law_rewritten_wiki_link_leads_to_its_note(m, url, target, old_note, new_note);
    link_target::law_plain_target_is_read_as_it_stands(written);
}

/// What a rewritten Markdown link holds is read back, in the note where it is now, as a link to
/// where the note that it led to is now, unless it is written as a bare name for a note in the
/// same directory below the vault root.
pub proof fn law_rewritten_markdown_link_is_read_back(
    m: Relocation,
    url: Seq<char>,
    target: Seq<char>,
    old_note: Seq<char>,
    new_note: Seq<char>,
    written: Seq<char>,
)
    requires
        !link_target::external_url(url),
        link_target::internal_markdown_target(url) == Some(target),
        link_path::wiki_target(m.old_source, target) == Some(old_note),
        link_rewrite::new_target(m, old_note, link_path::note_relative(target)) == Some(new_note),
        link_laws::plain_path(new_note),
        link_path::has_md_extension(new_note),
        link_path::note_relative(target) ==> link_laws::plain_dir(
            link_path::parent_of(m.new_source),
        ),
        link_path::note_relative(target) && link_path::parent_of(m.new_source).len() > 0 ==> {
            &&& text::split_on(new_note, '/').drop_last() != link_path::dir_segments(
                link_path::parent_of(m.new_source),
            )
            &&& !text::split_on(new_note, '/').is_prefix_of(
                link_path::dir_segments(link_path::parent_of(m.new_source)),
            )
        },
        link_rewrite::new_href(m, url) == Some(written),
        link_target::stands_for_itself(written),
        !written.contains('?'),
    ensures
        link_parser::markdown_link_note(written, m.new_source) == Some(new_note),
{
    if link_path::note_relative(target) {
        link_laws::law_markdown_href_is_read_back(m.new_source, new_note);
        if link_path::parent_of(m.new_source).len() > 0 {
            link_laws::law_markdown_href_keeps_extension(m.new_source, new_note);
        }
    } else {
        link_laws::law_vault_path_is_read_back(m.new_source, new_note);
    }
    link_target::law_plain_target_is_read_as_it_stands(written);
}

proof fn lemma_placed(edits: Seq<EditView>, edit: EditView)
    requires
        forall|i: int, j: int|
            0 <= i < j < edits.len() ==> (#[trigger] edits[i]).start >= (#[trigger] edits[j]).start,
    ensures
        link_rewrite::placed(edits, edit).to_multiset() == edits.to_multiset().insert(edit),
        forall|i: int, j: int|
            0 <= i < j < link_rewrite::placed(edits, edit).len() ==> (
            #[trigger] link_rewrite::placed(edits, edit)[i]).start >= (
            #[trigger] link_rewrite::placed(edits, edit)[j]).start,
        forall|e: EditView| #[trigger]
            link_rewrite::placed(edits, edit).contains(e) <==> edits.contains(e) || e == edit,
    decreases edits.len(),
{
    broadcast use vstd::seq_lib::group_to_multiset_ensures;

    let out = link_rewrite::placed(edits, edit);
    if edits.len() == 0 || edits.last().start >= edit.start {
        assert forall|i: int, j: int| 0 <= i < j < out.len() implies (#[trigger] out[i]).start >= (
        #[trigger] out[j]).start by {
            if j == edits.len() && i < edits.len() - 1 {
                assert(edits[i].start >= edits[edits.len() - 1].start);
            }
        }
        assert forall|e: EditView| #[trigger] out.contains(e) <==> edits.contains(e) || e
            == edit by {
            text::lemma_push_contains(edits, edit, e);
        }
    } else {
        let front = edits.drop_last();
        lemma_placed(front, edit);
        let inner = link_rewrite::placed(front, edit);
        assert forall|i: int, j: int| 0 <= i < j < out.len() implies (#[trigger] out[i]).start >= (
        #[trigger] out[j]).start by {
            if j == inner.len() {
                assert(inner.contains(inner[i]));
                if inner[i] != edit {
                    let k = choose|k: int| 0 <= k < front.len() && front[k] == inner[i];
                    assert(edits[k].start >= edits[edits.len() - 1].start);
                }
            }
        }
        assert(edits =~= front.push(edits.last()));
        assert forall|e: EditView| #[trigger] out.contains(e) <==> edits.contains(e) || e
            == edit by {
            text::lemma_push_contains(inner, edits.last(), e);
            text::lemma_push_contains(front, edits.last(), e);
            assert(inner.contains(e) <==> front.contains(e) || e == edit);
        }
        assert(out.to_multiset() =~= edits.to_multiset().insert(edit));
    }
}

/// Edits are made from the end of the text to its start, each of them once, so that none shifts
/// what another one replaces.
pub proof fn law_edits_run_right_to_left(edits: Seq<EditView>)
    ensures
        link_rewrite::right_to_left(edits).to_multiset() == edits.to_multiset(),
        forall|i: int, j: int|
            0 <= i < j < link_rewrite::right_to_left(edits).len() ==> (
            #[trigger] link_rewrite::right_to_left(edits)[i]).start >= (
            #[trigger] link_rewrite::right_to_left(edits)[j]).start,
    decreases edits.len(),
{
    broadcast use vstd::seq_lib::group_to_multiset_ensures;

    if edits.len() > 0 {
        law_edits_run_right_to_left(edits.drop_last());
        lemma_placed(link_rewrite::right_to_left(edits.drop_last()), edits.last());
        assert(edits =~= edits.drop_last().push(edits.last()));
    }
}

/// The text before the place where the leftmost edit begins is kept: it is the start of the text
/// after the edits too.
pub proof fn law_text_before_edits_is_kept(s: Seq<char>, edits: Seq<EditView>, n: int, at: int)
    requires
        0 <= n <= edits.len(),
        link_rewrite::all_apply(s, edits),
        0 <= at <= s.len(),
        forall|k: int|
            0 <= k < n ==> (#[trigger] edits[k]).start >= byte_offset::byte_len(s.take(at)),
    ensures
        s.take(at).is_prefix_of(link_rewrite::edited(s, edits, n)),
    decreases n,
{
    if n == 0 {
        assert(s.take(at) =~= link_rewrite::edited(s, edits, 0).take(at));
    } else {
        law_text_before_edits_is_kept(s, edits, n - 1, at);
        let before = link_rewrite::edited(s, edits, n - 1);
        let edit = edits[n - 1];
        let kept = s.take(at);
        assert(link_rewrite::applies(before, edit));
        assert(before.take(at) =~= kept);
        let cut = byte_offset::char_index(before, edit.start);
        assert(byte_offset::starts_at(before, cut, edit.start));
        if cut < at {
            byte_offset::lemma_byte_len_grows(before, cut, at);
        }
        let after = link_rewrite::spliced(before, edit);
        assert(after.take(at) =~= before.take(at));
    }
}

/// Whether `edits`, which run from right to left, each replace whole characters of `s` and do not
/// overlap.
pub open spec fn disjoint(s: Seq<char>, edits: Seq<EditView>) -> bool {
    &&& forall|k: int| 0 <= k < edits.len() ==> #[trigger] link_rewrite::applies(s, edits[k])
    &&& forall|k: int| 0 < k < edits.len() ==> (#[trigger] edits[k]).end <= edits[k - 1].start
}

/// What becomes of `s` from the start of the last of the first `n` edits on: the new text of that
/// edit, what stood between it and the edit to its right, and so on to the end of `s`.
pub open spec fn patched_from(s: Seq<char>, edits: Seq<EditView>, n: int) -> Seq<char>
    decreases n,
{
    if n <= 0 {
        Seq::empty()
    } else {
        let edit = edits[n - 1];
        let end = byte_offset::char_index(s, edit.end);
        if n == 1 {
            edit.text + s.skip(end)
        } else {
            edit.text + s.subrange(end, byte_offset::char_index(s, edits[n - 2].start))
                + patched_from(s, edits, n - 1)
        }
    }
}

proof fn lemma_index_order(s: Seq<char>, a: int, b: int)
    requires
        a <= b,
        byte_offset::on_boundary(s, a),
        byte_offset::on_boundary(s, b),
    ensures
        0 <= byte_offset::char_index(s, a) <= byte_offset::char_index(s, b) <= s.len(),
{
    let i = byte_offset::char_index(s, a);
    let j = byte_offset::char_index(s, b);
    assert(byte_offset::starts_at(s, i, a));
    assert(byte_offset::starts_at(s, j, b));
    if j < i {
        byte_offset::lemma_byte_len_grows(s, j, i);
    }
}

/// Edits that replace whole characters and do not overlap can all be made, and change nothing but
/// what they replace: all that stands before, between and behind them stays, in its order.
pub proof fn law_edits_change_only_their_ranges(s: Seq<char>, edits: Seq<EditView>, n: int)
    requires
        disjoint(s, edits),
        0 < n <= edits.len(),
    ensures
        forall|k: int|
            0 <= k < n ==> #[trigger] link_rewrite::applies(
                link_rewrite::edited(s, edits, k),
                edits[k],
            ),
        link_rewrite::edited(s, edits, n) == s.take(
            byte_offset::char_index(s, edits[n - 1].start),
        ) + patched_from(s, edits, n),
    decreases n,
{
    let edit = edits[n - 1];
    let cur = link_rewrite::edited(s, edits, n - 1);
    let i = byte_offset::char_index(s, edit.start);
    let j = byte_offset::char_index(s, edit.end);
    assert(link_rewrite::applies(s, edit));
    lemma_index_order(s, edit.start, edit.end);
    if n > 1 {
        law_edits_change_only_their_ranges(s, edits, n - 1);
        let right = edits[n - 2];
        let p = byte_offset::char_index(s, right.start);
        assert(link_rewrite::applies(s, right));
        assert(edits[n - 1].end <= edits[n - 2].start);
        lemma_index_order(s, edit.end, right.start);
        assert(cur == s.take(p) + patched_from(s, edits, n - 1));
        assert(cur.take(i) =~= s.take(i));
        assert(cur.take(j) =~= s.take(j));
        assert(cur.skip(j) =~= s.subrange(j, p) + patched_from(s, edits, n - 1));
    }
    assert(byte_offset::starts_at(s, i, edit.start));
    assert(byte_offset::starts_at(s, j, edit.end));
    byte_offset::lemma_char_index(cur, i, edit.start);
    byte_offset::lemma_char_index(cur, j, edit.end);
    assert(link_rewrite::edited(s, edits, n) =~= s.take(i) + patched_from(s, edits, n));
}

proof fn lemma_first_at(head: Seq<char>, tail: Seq<char>, c: char)
    requires
        !head.contains(c),
    ensures
        text::first_at(head + tail, c) == head.len() + text::first_at(tail, c),
    decreases head.len(),
{
    if head.len() == 0 {
        assert(head + tail =~= tail);
    } else {
        let rest = head.skip(1);
        assert(head[0] != c);
        if rest.contains(c) {
            let i = choose|i: int| 0 <= i < rest.len() && rest[i] == c;
            assert(head[i + 1] == c);
        }
        lemma_first_at(rest, tail, c);
        assert((head + tail).skip(1) =~= rest + tail);
        assert((head + tail)[0] == head[0]);
    }
}

/// A wiki link keeps its label when its target is replaced: replacing the target once more gives
/// what replacing it with the last one at once would have given.
pub proof fn law_wiki_label_is_kept(span: Seq<char>, first: Seq<char>, second: Seq<char>)
    requires
        first.len() > 0,
        !first.contains('|'),
    ensures
        match link_rewrite::with_wiki(span, first) {
            Some(once) => link_rewrite::with_wiki(once, second) == link_rewrite::with_wiki(
                span,
                second,
            ),
            None => link_rewrite::with_wiki(span, second) is None,
        },
{
    reveal_strlit("[[");
    reveal_strlit("]]");
    reveal_strlit("|");
    if let Some(once) = link_rewrite::with_wiki(span, first) {
        let inner = span.subrange(2, span.len() - 2);
        let bar = text::first_at(inner, '|');
        let new_inner = once.subrange(2, once.len() - 2);
        assert(once.take(2) =~= "[["@);
        assert(once.skip(once.len() - 2) =~= "]]"@);
        if bar < inner.len() {
            let label = inner.skip(bar + 1);
            let tail = "|"@ + label;
            assert(new_inner =~= first + tail);
            lemma_first_at(first, tail, '|');
            assert(tail[0] == '|');
            assert(text::first_at(new_inner, '|') == first.len());
            assert(new_inner.skip(first.len() as int + 1) =~= label);
        } else {
            let none = Seq::<char>::empty();
            assert(new_inner =~= first);
            lemma_first_at(first, none, '|');
            assert(first + none =~= first);
        }
    }
}

/// Whether `k` occurs in `s` at the place `p` and at none before it.
pub open spec fn first_occurs_at(s: Seq<Seq<char>>, k: Seq<char>, p: int) -> bool {
    &&& 0 <= p < s.len()
    &&& s[p] == k
    &&& forall|q: int| 0 <= q < p ==> #[trigger] s[q] != k
}

/// Of items that occur more than once the first stays; all that occurred still occur, and of two
/// of them the one that occurred first stands first.
pub proof fn law_dedupe_keeps_first_of_each(s: Seq<Seq<char>>)
    ensures
        link_target::first_occurrences(s).no_duplicates(),
        forall|k: Seq<char>| #[trigger]
            link_target::first_occurrences(s).contains(k) <==> s.contains(k),
        forall|i: int, j: int, p: int, q: int|
            0 <= i < j < link_target::first_occurrences(s).len() && #[trigger] first_occurs_at(
                s,
                link_target::first_occurrences(s)[i],
                p,
            ) && #[trigger] first_occurs_at(s, link_target::first_occurrences(s)[j], q) ==> p < q,
    decreases s.len(),
{
    if s.len() > 0 {
        let shorter = s.drop_last();
        law_dedupe_keeps_first_of_each(shorter);
        let front = link_target::first_occurrences(shorter);
        let all = link_target::first_occurrences(s);
        assert forall|k: Seq<char>| #[trigger] all.contains(k) <==> s.contains(k) by {
            link_target::lemma_contains_last(s, k);
            assert(front.contains(k) <==> shorter.contains(k));
            if all.len() > front.len() {
                link_target::lemma_contains_last(all, k);
                assert(all.drop_last() =~= front);
            }
        }
        if !shorter.contains(s.last()) {
            assert(!front.contains(s.last()));
            assert forall|i: int, j: int| 0 <= i < all.len() && 0 <= j < all.len() && i
                != j implies all[i] != all[j] by {
                if i < front.len() {
                    assert(front.contains(front[i]));
                }
                if j < front.len() {
                    assert(front.contains(front[j]));
                }
            }
        }
        assert forall|i: int, j: int, p: int, q: int|
            0 <= i < j < all.len() && #[trigger] first_occurs_at(s, all[i], p)
                && #[trigger] first_occurs_at(s, all[j], q) implies p < q by {
            assert(all[i] == front[i]);
            assert(front.contains(front[i]));
            lemma_first_place(s, all[i], p);
            if j < front.len() {
                assert(all[j] == front[j]);
                assert(front.contains(front[j]));
                lemma_first_place(s, all[j], q);
                assert(first_occurs_at(shorter, front[i], p));
                assert(first_occurs_at(shorter, front[j], q));
            } else {
                assert(all[j] == s.last());
                if q < shorter.len() {
                    assert(shorter[q] == s.last());
                }
            }
        }
    }
}

/// What occurs before the last place has its first place there.
proof fn lemma_first_place(s: Seq<Seq<char>>, k: Seq<char>, p: int)
    requires
        s.len() > 0,
        first_occurs_at(s, k, p),
        s.drop_last().contains(k),
    ensures
        first_occurs_at(s.drop_last(), k, p),
{
    let shorter = s.drop_last();
    let m = choose|m: int| 0 <= m < shorter.len() && shorter[m] == k;
    assert(s[m] == k);
    assert forall|q: int| 0 <= q < p implies #[trigger] shorter[q] != k by {
        assert(s[q] != k);
    }
}

/// Links to the web are listed once for each address.
pub proof fn law_external_addresses_are_distinct(s: Seq<link_target::ExternalLinkView>)
    ensures
        forall|i: int, j: int|
            0 <= i < j < link_target::first_by_url(s).len() ==> (
            #[trigger] link_target::first_by_url(s)[i]).url != (
            #[trigger] link_target::first_by_url(s)[j]).url,
        forall|url: Seq<char>| #[trigger]
            link_target::has_url(link_target::first_by_url(s), url) <==> link_target::has_url(
                s,
                url,
            ),
    decreases s.len(),
{
    if s.len() > 0 {
        let front = s.drop_last();
        law_external_addresses_are_distinct(front);
        let kept = link_target::first_by_url(front);
        let all = link_target::first_by_url(s);
        assert forall|url: Seq<char>| #[trigger] link_target::has_url(all, url) <==> link_target::has_url(
            s,
            url,
        ) by {
            lemma_has_url_last(s, url);
            assert(link_target::has_url(kept, url) <==> link_target::has_url(front, url));
            if all.len() > kept.len() {
                lemma_has_url_last(all, url);
                assert(all.drop_last() =~= kept);
            }
        }
        if !link_target::has_url(front, s.last().url) {
            assert(!link_target::has_url(kept, s.last().url));
        }
    }
}

proof fn lemma_has_url_last(s: Seq<link_target::ExternalLinkView>, url: Seq<char>)
    requires
        s.len() > 0,
    ensures
        link_target::has_url(s, url) <==> link_target::has_url(s.drop_last(), url) || s.last().url
            == url,
{
    if link_target::has_url(s, url) {
        let i = choose|i: int| 0 <= i < s.len() && (#[trigger] s[i]).url == url;
        if i < s.len() - 1 {
            assert(s.drop_last()[i].url == url);
        }
    }
    if link_target::has_url(s.drop_last(), url) {
        let i = choose|i: int|
            0 <= i < s.drop_last().len() && (#[trigger] s.drop_last()[i]).url == url;
        assert(s[i].url == url);
    }
    assert(s[s.len() - 1] == s.last());
}

} // verus!
