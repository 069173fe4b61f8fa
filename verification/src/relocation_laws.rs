use crate::byte_offset;
use crate::link_laws;
use crate::link_path;
use crate::link_rewrite;
use crate::link_rewrite::{Edit, EditView, Job, Relocation, RewriteResult};
use crate::link_target;
use crate::markdown::{NodeKindView, NodeView};
use crate::path_laws;
use crate::rewrite_laws;
use crate::string_map::StringMap;
use crate::target_laws;
use crate::target_laws::{begins_as_web, marks_embed};
use crate::text;
use crate::text_laws;
use crate::text_laws::{ascending, lemma_ascending_push};
use vstd::prelude::*;
use vstd::utf8::*;

verus! {

/// Where the note that was at `note` is after a move.
pub open spec fn where_now(m: Relocation, note: Seq<char>) -> Seq<char> {
    if m.moved.contains_key(note) {
        m.moved[note]@
    } else {
        note
    }
}

/// Whether a text begins with `./` or `../`.
pub open spec fn dotted(s: Seq<char>) -> bool {
    ||| s.len() >= 2 && s[0] == '.' && s[1] == '/'
    ||| s.len() >= 3 && s[0] == '.' && s[1] == '.' && s[2] == '/'
}

/// Whether a move makes a link to `note` with the target `target` lead elsewhere if it stays as it
/// is: the note has moved, or the note that holds the link has and the link is written relative to
/// it.
pub open spec fn goes_astray(m: Relocation, note: Seq<char>, target: Seq<char>) -> bool {
    m.moved.contains_key(note) || (m.old_source != m.new_source && dotted(target))
}

/// A wiki link that is followed is planned anew just if the move makes it lead elsewhere, wherever
/// the notes lie, and then for the place where its note is now.
pub proof fn law_wiki_links_are_planned(
    m: Relocation,
    nodes: Seq<NodeView>,
    i: int,
    url: Seq<char>,
    target: Seq<char>,
    note: Seq<char>,
)
    requires
        0 <= i < nodes.len(),
        nodes[i].kind == NodeKindView::WikiLink(url),
        forall|j: int| !(#[trigger] marks_embed(nodes, j, i)),
        link_target::wiki_link_target(url) == Some(target),
        link_path::wiki_target(m.old_source, target) == Some(note),
    ensures
        goes_astray(m, note, target) ==> link_rewrite::planned(m, nodes, i) == Some(
            link_path::wiki_text(m.new_source, where_now(m, note), dotted(target)),
        ),
        !goes_astray(m, note, target) ==> link_rewrite::planned(m, nodes, i) is None,
{
    target_laws::law_embed(nodes, i);
    path_laws::law_note_relative(target);
}

/// A Markdown link that is followed is planned anew just if the move makes it lead elsewhere,
/// wherever the notes lie, and then for the place where its note is now.
pub proof fn law_markdown_links_are_planned(
    m: Relocation,
    nodes: Seq<NodeView>,
    i: int,
    url: Seq<char>,
    target: Seq<char>,
    note: Seq<char>,
)
    requires
        0 <= i < nodes.len(),
        nodes[i].kind == NodeKindView::Link(url),
        !begins_as_web(url),
        link_target::internal_markdown_target(url) == Some(target),
        link_path::wiki_target(m.old_source, target) == Some(note),
    ensures
        goes_astray(m, note, target) && dotted(target) ==> link_rewrite::planned(m, nodes, i)
            == Some(link_path::markdown_href(m.new_source, where_now(m, note))),
        goes_astray(m, note, target) && !dotted(target) ==> link_rewrite::planned(m, nodes, i)
            == Some(where_now(m, note)),
        !goes_astray(m, note, target) ==> link_rewrite::planned(m, nodes, i) is None,
{
    target_laws::law_external_url(url);
    path_laws::law_note_relative(target);
}

/// Nothing is planned for an embed, for a link to the web, for a link that names no note, and for a
/// node that is no link.
pub proof fn law_nothing_else_is_planned(m: Relocation, nodes: Seq<NodeView>, i: int)
    requires
        0 <= i < nodes.len(),
    ensures
        ({
            let plan = link_rewrite::planned(m, nodes, i);
            match nodes[i].kind {
                NodeKindView::WikiLink(url) => {
                    &&& (exists|j: int| #[trigger] marks_embed(nodes, j, i)) ==> plan is None
                    &&& match link_target::wiki_link_target(url) {
                        Some(target) => link_path::wiki_target(m.old_source, target) is None
                            ==> plan is None,
                        None => plan is None,
                    }
                },
                NodeKindView::Link(url) => {
                    &&& begins_as_web(url) ==> plan is None
                    &&& match link_target::internal_markdown_target(url) {
                        Some(target) => link_path::wiki_target(m.old_source, target) is None
                            ==> plan is None,
                        None => plan is None,
                    }
                },
                _ => plan is None,
            }
        }),
{
    target_laws::law_embed(nodes, i);
    if let NodeKindView::Link(url) = nodes[i].kind {
        target_laws::law_external_url(url);
    }
}

/// A wiki link that a move makes lead elsewhere is written so that it leads, from where its note is
/// now, to where the note that it led to is now.
pub proof fn law_rewritten_wiki_link_is_right(
    m: Relocation,
    nodes: Seq<NodeView>,
    i: int,
    url: Seq<char>,
    target: Seq<char>,
    note: Seq<char>,
)
    requires
        0 <= i < nodes.len(),
        nodes[i].kind == NodeKindView::WikiLink(url),
        forall|j: int| !(#[trigger] marks_embed(nodes, j, i)),
        link_target::wiki_link_target(url) == Some(target),
        link_path::wiki_target(m.old_source, target) == Some(note),
        goes_astray(m, note, target),
        link_laws::plain_note(where_now(m, note)),
        !dotted(target) || link_path::parent_of(m.new_source).len() == 0 ==> where_now(m, note)
            != ".md"@,
        dotted(target) ==> link_laws::plain_dir(link_path::parent_of(m.new_source)),
        dotted(target) ==> !text::split_on(
            link_path::without_md(where_now(m, note)),
            '/',
        ).is_prefix_of(link_path::dir_segments(link_path::parent_of(m.new_source))),
    ensures
        match link_rewrite::planned(m, nodes, i) {
            Some(written) => link_path::wiki_target(m.new_source, written) == Some(
                where_now(m, note),
            ),
            None => false,
        },
{
    law_wiki_links_are_planned(m, nodes, i, url, target, note);
    link_laws::law_wiki_text_leads_back(m.new_source, where_now(m, note), dotted(target));
}

/// A Markdown link that a move makes lead elsewhere is written so that it leads to where the note
/// that it led to is now: from the directory of its note, if it was written so, and else from the
/// vault root.
pub proof fn law_rewritten_markdown_link_is_right(
    m: Relocation,
    nodes: Seq<NodeView>,
    i: int,
    url: Seq<char>,
    target: Seq<char>,
    note: Seq<char>,
)
    requires
        0 <= i < nodes.len(),
        nodes[i].kind == NodeKindView::Link(url),
        !begins_as_web(url),
        link_target::internal_markdown_target(url) == Some(target),
        link_path::wiki_target(m.old_source, target) == Some(note),
        goes_astray(m, note, target),
        link_laws::plain_path(where_now(m, note)),
        !dotted(target) ==> link_path::has_md_extension(where_now(m, note)),
        dotted(target) ==> link_laws::plain_dir(link_path::parent_of(m.new_source)),
    ensures
        match link_rewrite::planned(m, nodes, i) {
            Some(written) => if dotted(target) {
                link_path::resolved_path(link_path::parent_of(m.new_source), written) == Some(
                    where_now(m, note),
                )
            } else {
                link_path::wiki_target(m.new_source, written) == Some(where_now(m, note))
            },
            None => false,
        },
{
    law_markdown_links_are_planned(m, nodes, i, url, target, note);
    if dotted(target) {
        link_laws::law_markdown_href_leads_back(m.new_source, where_now(m, note));
    } else {
        link_laws::law_vault_path_is_read_back(m.new_source, where_now(m, note));
    }
}

/// A link that is left as it is leads, from where its note is now, to where the note that it led to
/// is now.
pub proof fn law_link_that_stays_is_right(m: Relocation, target: Seq<char>, note: Seq<char>)
    requires
        link_path::wiki_target(m.old_source, target) == Some(note),
        !goes_astray(m, note, target),
    ensures
        link_path::wiki_target(m.new_source, target) == Some(where_now(m, note)),
{
    path_laws::law_note_relative(target);
    if !dotted(target) {
        path_laws::law_vault_target(m.old_source, m.new_source, target);
    }
}

/// A wiki link is written with its new target in place of the old one, and keeps its label, if it
/// has one.
pub proof fn law_wiki_link_gets_its_target(old: Seq<char>, label: Seq<char>, target: Seq<char>)
    requires
        !old.contains('|'),
    ensures
        old.len() > 0 ==> link_rewrite::with_wiki(seq!['[', '['] + old + seq![']', ']'], target)
            == Some(seq!['[', '['] + target + seq![']', ']']),
        link_rewrite::with_wiki(
            seq!['[', '['] + old + seq!['|'] + label + seq![']', ']'],
            target,
        ) == Some(seq!['[', '['] + target + seq!['|'] + label + seq![']', ']']),
{
    reveal_strlit("[[");
    reveal_strlit("]]");
    reveal_strlit("|");
    assert("[["@ =~= seq!['[', '[']);
    assert("]]"@ =~= seq![']', ']']);
    assert("|"@ =~= seq!['|']);
    let bare = seq!['[', '['] + old + seq![']', ']'];
    assert(bare.take(2) =~= "[["@);
    assert(bare.skip(bare.len() - 2) =~= "]]"@);
    assert(bare.subrange(2, bare.len() - 2) =~= old);
    text_laws::law_first_at(old, '|');
    let i = text::first_at(old, '|');
    if i < old.len() {
        assert(old[i] == '|');
    }
    let full = seq!['[', '['] + old + seq!['|'] + label + seq![']', ']'];
    let inner = old + seq!['|'] + label;
    assert(full.take(2) =~= "[["@);
    assert(full.skip(full.len() - 2) =~= "]]"@);
    assert(full.subrange(2, full.len() - 2) =~= inner);
    text_laws::law_first_at(inner, '|');
    let j = text::first_at(inner, '|');
    assert(inner[old.len() as int] == '|');
    if j < old.len() {
        assert(old[j] == '|');
    }
    assert(inner.skip(old.len() as int + 1) =~= label);
}

/// What is not written as a wiki link is not rewritten as one.
pub proof fn law_other_text_is_no_wiki_link(span: Seq<char>, target: Seq<char>)
    ensures
        span.len() < 5 || span[0] != '[' || span[1] != '[' || span[span.len() - 1] != ']'
            || span[span.len() - 2] != ']' ==> link_rewrite::with_wiki(span, target) is None,
{
    reveal_strlit("[[");
    reveal_strlit("]]");
    if span.len() >= 5 {
        if "[["@.is_prefix_of(span) {
            assert(span.take(2)[0] == span[0]);
            assert(span.take(2)[1] == span[1]);
        }
        if "]]"@.is_suffix_of(span) {
            let n = span.len() as int;
            assert(span.skip(n - 2)[0] == span[n - 2]);
            assert(span.skip(n - 2)[1] == span[n - 1]);
        }
    }
}

proof fn lemma_last_bridge(head: Seq<char>, tail: Seq<char>)
    requires
        forall|k: int| 0 <= k < tail.len() - 1 ==> !(#[trigger] tail[k] == ']' && tail[k + 1] == '('),
    ensures
        link_rewrite::last_bridge(head + seq![']', '('] + tail) == head.len(),
    decreases tail.len(),
{
    let whole = head + seq![']', '('] + tail;
    let n = whole.len() as int;
    if tail.len() == 0 {
        assert(whole[n - 2] == ']' && whole.last() == '(');
    } else {
        let front = tail.drop_last();
        assert forall|k: int| 0 <= k < front.len() - 1 implies !(#[trigger] front[k] == ']'
            && front[k + 1] == '(') by {
            assert(tail[k] == front[k]);
            assert(tail[k + 1] == front[k + 1]);
        }
        lemma_last_bridge(head, front);
        assert(whole.drop_last() =~= head + seq![']', '('] + front);
        let t = tail.len() as int;
        if t >= 2 {
            assert(whole[n - 2] == tail[t - 2]);
            assert(whole.last() == tail[t - 1]);
        } else {
            assert(whole[n - 2] == '(');
        }
    }
}

/// An inline link is written with its new destination in place of the old one, and keeps its label.
/// The destination stands in angle brackets just if the old one did or if it holds white space.
pub proof fn law_inline_link_gets_its_destination(label: Seq<char>, old: Seq<char>, href: Seq<char>)
    requires
        forall|k: int| 0 <= k < old.len() - 1 ==> !(#[trigger] old[k] == ']' && old[k + 1] == '('),
    ensures
        ({
            let bare = text::trim(old);
            let wrapped = (bare.len() >= 2 && bare[0] == '<' && bare.last() == '>') || exists|k: int|
                0 <= k < href.len() && text::is_space(#[trigger] href[k]);
            let destination = if wrapped {
                seq!['<'] + href + seq!['>']
            } else {
                href
            };
            link_rewrite::with_href(
                seq!['['] + label + seq![']', '('] + old + seq![')'],
                href,
            ) == Some(seq!['['] + label + seq![']', '('] + destination + seq![')'])
        }),
{
    reveal_strlit("[");
    reveal_strlit("](");
    reveal_strlit(")");
    reveal_strlit("<");
    reveal_strlit(">");
    assert("["@ =~= seq!['[']);
    assert("]("@ =~= seq![']', '(']);
    assert(")"@ =~= seq![')']);
    assert("<"@ =~= seq!['<']);
    assert(">"@ =~= seq!['>']);
    let span = seq!['['] + label + seq![']', '('] + old + seq![')'];
    let head = seq!['['] + label;
    let tail = old + seq![')'];
    assert(span =~= head + seq![']', '('] + tail);
    assert forall|k: int| 0 <= k < tail.len() - 1 implies !(#[trigger] tail[k] == ']' && tail[k + 1]
        == '(') by {
        if k + 1 < old.len() {
            assert(old[k] == tail[k]);
            assert(old[k + 1] == tail[k + 1]);
        }
    }
    lemma_last_bridge(head, tail);
    let split = head.len() as int;
    assert(span[0] == '[');
    assert(span.last() == ')');
    assert(span.subrange(1, split) =~= label);
    assert(span.subrange(split + 2, span.len() - 1) =~= old);
    if link_rewrite::has_space(href) {
        let k = choose|k: int| 0 <= k < href.len() && text::is_space(#[trigger] href[k]);
        assert(text::is_space(href[k]));
    }
}

/// What is not written as an inline link is not rewritten as one.
pub proof fn law_other_text_is_no_inline_link(span: Seq<char>, href: Seq<char>)
    ensures
        span.len() == 0 || span[0] != '[' || span[span.len() - 1] != ')' || (forall|k: int|
            0 <= k < span.len() - 1 ==> !(#[trigger] span[k] == ']' && span[k + 1] == '('))
            ==> link_rewrite::with_href(span, href) is None,
{
    if forall|k: int| 0 <= k < span.len() - 1 ==> !(#[trigger] span[k] == ']' && span[k + 1] == '(') {
        lemma_no_bridge(span);
    }
}

proof fn lemma_no_bridge(s: Seq<char>)
    requires
        forall|k: int| 0 <= k < s.len() - 1 ==> !(#[trigger] s[k] == ']' && s[k + 1] == '('),
    ensures
        link_rewrite::last_bridge(s) == -1,
    decreases s.len(),
{
    if s.len() >= 2 {
        let front = s.drop_last();
        assert forall|k: int| 0 <= k < front.len() - 1 implies !(#[trigger] front[k] == ']'
            && front[k + 1] == '(') by {
            assert(s[k] == front[k]);
            assert(s[k + 1] == front[k + 1]);
        }
        assert(!(s[s.len() - 2] == ']' && s[s.len() - 2 + 1] == '('));
        lemma_no_bridge(front);
    }
}

/// Whether `edit` is what the link at place `i` asks for: the bytes that it covers, which lie in the
/// text, replaced by the same link with its new target, if that makes a difference.
pub open spec fn asked_for(job: Job, nodes: Seq<NodeView>, i: int, edit: EditView) -> bool {
    &&& 0 <= i < nodes.len()
    &&& link_rewrite::planned(job.relocation, nodes, i) is Some
    &&& byte_offset::byte_range(byte_offset::line_starts(job.markdown), nodes[i].pos) == Some(
        (edit.start, edit.end),
    )
    &&& edit.end <= encode_utf8(job.markdown).len()
    &&& ({
        let target = link_rewrite::planned(job.relocation, nodes, i)->0;
        let span = byte_offset::byte_slice(job.markdown, edit.start, edit.end);
        &&& nodes[i].kind is Link ==> link_rewrite::with_href(span, target) == Some(edit.text)
        &&& nodes[i].kind is WikiLink ==> link_rewrite::with_wiki(span, target) == Some(edit.text)
        &&& edit.text != span
    })
}

/// The edits that are made are just those that the links of the note ask for, one for each.
pub proof fn law_edits_are_those_asked_for(job: Job, nodes: Seq<NodeView>, n: int) -> (places: Seq<
    int,
>)
    requires
        0 <= n <= nodes.len(),
    ensures
        ascending(places, n),
        link_rewrite::edits_among(job, nodes, n).len() == places.len(),
        forall|k: int|
            0 <= k < places.len() ==> asked_for(
                job,
                nodes,
                #[trigger] places[k],
                link_rewrite::edits_among(job, nodes, n)[k],
            ),
        forall|i: int, edit: EditView|
            0 <= i < n && #[trigger] asked_for(job, nodes, i, edit) ==> places.contains(i),
    decreases n,
{
    if n == 0 {
        Seq::empty()
    } else {
        let old = law_edits_are_those_asked_for(job, nodes, n - 1);
        lemma_ascending_push(old, n - 1);
        law_nothing_else_is_planned(job.relocation, nodes, n - 1);
        let places = match link_rewrite::node_edit(job, nodes, n - 1) {
            Some(edit) => old.push(n - 1),
            None => old,
        };
        assert forall|k: int| 0 <= k < places.len() implies asked_for(
            job,
            nodes,
            #[trigger] places[k],
            link_rewrite::edits_among(job, nodes, n)[k],
        ) by {
            if k < old.len() {
                assert(asked_for(
                    job,
                    nodes,
                    old[k],
                    link_rewrite::edits_among(job, nodes, n - 1)[k],
                ));
            }
        }
        assert forall|i: int, edit: EditView|
            0 <= i < n && #[trigger] asked_for(job, nodes, i, edit) implies places.contains(i) by {
            text::lemma_push_contains(old, n - 1, i);
            if i == n - 1 {
                assert(link_rewrite::node_edit(job, nodes, i) is Some);
            }
        }
        places
    }
}

/// Whether the link at place `i`, if it is planned anew, covers whole characters: its range can be
/// computed, and where it lies in the text, it begins and ends between characters.
pub open spec fn stands_clean(job: Job, nodes: Seq<NodeView>, i: int) -> bool {
    link_rewrite::planned(job.relocation, nodes, i) is Some ==> match byte_offset::byte_range(
        byte_offset::line_starts(job.markdown),
        nodes[i].pos,
    ) {
        Some((start, end)) => {
            &&& 0 <= start < usize::MAX
            &&& end <= usize::MAX
            &&& end <= encode_utf8(job.markdown).len() ==> start <= end
                && byte_offset::on_boundary(job.markdown, start) && byte_offset::on_boundary(
                job.markdown,
                end,
            )
        },
        None => true,
    }
}

/// A note whose links stand at whole characters and whose edits do not overlap is rewritten: all
/// that its links ask for is put in, and all else stays as it was.
pub proof fn law_clean_note_is_rewritten(r: RewriteResult, job: Job, nodes: Seq<NodeView>)
    requires
        link_rewrite::is_rewrite(r, job, nodes),
        forall|i: int| 0 <= i < nodes.len() ==> #[trigger] stands_clean(job, nodes, i),
        rewrite_laws::disjoint(job.markdown, link_rewrite::all_edits(job, nodes)),
    ensures
        r.changed <==> exists|i: int, edit: EditView| #[trigger] asked_for(job, nodes, i, edit),
        !r.changed ==> r.markdown@ == job.markdown,
        r.changed ==> {
            let edits = link_rewrite::all_edits(job, nodes);
            let n = edits.len() as int;
            &&& n > 0
            &&& edits.to_multiset() == link_rewrite::edits_among(
                job,
                nodes,
                nodes.len() as int,
            ).to_multiset()
            &&& r.markdown@ == job.markdown.take(
                byte_offset::char_index(job.markdown, edits[n - 1].start),
            ) + rewrite_laws::patched_from(job.markdown, edits, n)
        },
{
    broadcast use vstd::seq_lib::group_to_multiset_ensures;

    let edits = link_rewrite::all_edits(job, nodes);
    let asked = link_rewrite::edits_among(job, nodes, nodes.len() as int);
    let n = edits.len() as int;
    assert forall|i: int| 0 <= i < nodes.len() implies #[trigger] link_rewrite::cuts_cleanly(
        job,
        nodes,
        i,
    ) by {
        assert(stands_clean(job, nodes, i));
    }
    rewrite_laws::law_edits_run_right_to_left(asked);
    assert(edits.len() == asked.len()) by {
        assert(edits.to_multiset().len() == asked.to_multiset().len());
    }
    if n > 0 {
        rewrite_laws::law_edits_change_only_their_ranges(job.markdown, edits, n);
    }
    assert(link_rewrite::rewritable(job, nodes));
    let places = law_edits_are_those_asked_for(job, nodes, nodes.len() as int);
    if places.len() > 0 {
        assert(asked_for(job, nodes, places[0], asked[0]));
    }
    if exists|i: int, edit: EditView| #[trigger] asked_for(job, nodes, i, edit) {
        let (i, edit) = choose|i: int, edit: EditView| #[trigger] asked_for(job, nodes, i, edit);
        assert(places.contains(i));
    }
}

/// The lines of a text begin at its start and behind each line feed, and nowhere else; they are
/// listed in ascending order.
pub proof fn law_line_starts(s: Seq<char>)
    ensures
        byte_offset::line_starts(s).len() > 0,
        byte_offset::line_starts(s)[0] == 0,
        forall|a: int, b: int|
            0 <= a < b < byte_offset::line_starts(s).len() ==> #[trigger] byte_offset::line_starts(
                s,
            )[a] < #[trigger] byte_offset::line_starts(s)[b],
        forall|offset: int| #[trigger]
            byte_offset::line_starts(s).contains(offset) <==> offset == 0 || exists|i: int|
                0 <= i < s.len() && #[trigger] s[i] == '\n' && offset == encode_utf8(
                    s.take(i + 1),
                ).len(),
    decreases s.len(),
{
    let all = byte_offset::line_starts(s);
    if s.len() == 0 {
        assert(all[0] == 0);
        assert(all.contains(0));
    } else {
        let front = s.drop_last();
        let before = byte_offset::line_starts(front);
        let n = front.len() as int;
        law_line_starts(front);
        assert(s.take(n + 1) =~= s);
        assert(s.take(n) =~= front);
        let whole = encode_utf8(s).len() as int;
        byte_offset::lemma_byte_len_grows(s, n, n + 1);
        assert forall|a: int| 0 <= a < before.len() implies #[trigger] before[a] < whole by {
            assert(before.contains(before[a]));
            if before[a] != 0 {
                let i = choose|i: int|
                    0 <= i < front.len() && #[trigger] front[i] == '\n' && before[a] == encode_utf8(
                        front.take(i + 1),
                    ).len();
                byte_offset::lemma_byte_len_grows(front, i + 1, n);
                assert(front.take(n) =~= front);
            }
        }
        assert forall|offset: int| #[trigger] all.contains(offset) <==> offset == 0 || exists|i: int|
            0 <= i < s.len() && #[trigger] s[i] == '\n' && offset == encode_utf8(s.take(i + 1)).len() by {
            text::lemma_push_contains(before, whole, offset);
            assert(before.contains(offset) <==> offset == 0 || exists|i: int|
                0 <= i < front.len() && #[trigger] front[i] == '\n' && offset == encode_utf8(
                    front.take(i + 1),
                ).len());
            if exists|i: int|
                0 <= i < s.len() && #[trigger] s[i] == '\n' && offset == encode_utf8(
                    s.take(i + 1),
                ).len() {
                let i = choose|i: int|
                    0 <= i < s.len() && #[trigger] s[i] == '\n' && offset == encode_utf8(
                        s.take(i + 1),
                    ).len();
                if i < n {
                    assert(front[i] == '\n');
                    assert(front.take(i + 1) =~= s.take(i + 1));
                }
            }
            if exists|i: int|
                0 <= i < front.len() && #[trigger] front[i] == '\n' && offset == encode_utf8(
                    front.take(i + 1),
                ).len() {
                let i = choose|i: int|
                    0 <= i < front.len() && #[trigger] front[i] == '\n' && offset == encode_utf8(
                        front.take(i + 1),
                    ).len();
                assert(s[i] == '\n');
                assert(front.take(i + 1) =~= s.take(i + 1));
            }
            if s.last() == '\n' && offset == whole {
                assert(s[n] == '\n');
            }
        }
    }
}

/// A position covers the bytes from its first column in its first line to its last column in its
/// last line, counted from 1, if the text has those lines.
pub proof fn law_position_covers_its_columns(
    starts: Seq<int>,
    start_line: usize,
    start_column: usize,
    end_line: usize,
    end_column: usize,
)
    ensures
        ({
            let pos = crate::markdown::SourcePos { start_line, start_column, end_line, end_column };
            let known = 0 < start_line <= starts.len() && 0 < end_line <= starts.len();
            match byte_offset::byte_range(starts, pos) {
                Some((from, to)) => known && from + 1 == starts[start_line - 1] + start_column && to
                    == starts[end_line - 1] + end_column,
                None => !known,
            }
        }),
{
}

/// A note in which a link that is planned anew does not stand at whole characters stays as it is.
pub proof fn law_note_that_cannot_be_cut_stays(
    r: RewriteResult,
    job: Job,
    nodes: Seq<NodeView>,
    i: int,
)
    requires
        link_rewrite::is_rewrite(r, job, nodes),
        0 <= i < nodes.len(),
        !stands_clean(job, nodes, i),
    ensures
        r.markdown@ == job.markdown,
        !r.changed,
{
    assert(!link_rewrite::cuts_cleanly(job, nodes, i));
}

/// A note is rewritten for the move that was asked for: its text, the places of the note before and
/// after, and where other notes have moved.
pub proof fn law_job(
    content: Seq<char>,
    old_source: Seq<char>,
    new_source: Seq<char>,
    moved: StringMap<String>,
)
    ensures
        ({
            let job = link_rewrite::job_of(content, old_source, new_source, moved);
            &&& job.markdown == content
            &&& job.relocation.old_source == old_source
            &&& job.relocation.new_source == new_source
            &&& job.relocation.moved == moved@
            &&& link_rewrite::relocation(old_source, new_source, moved) == job.relocation
        }),
{
}

/// What is held of the edits and of the offsets of a list is what each of them holds, in order.
pub proof fn law_edit_views(edits: Seq<Edit>, offsets: Seq<usize>, i: int)
    ensures
        link_rewrite::edit_views(edits).len() == edits.len(),
        byte_offset::numbers(offsets).len() == offsets.len(),
        0 <= i < edits.len() ==> {
            let view = link_rewrite::edit_views(edits)[i];
            &&& view.start == edits[i].start
            &&& view.end == edits[i].end
            &&& view.text == edits[i].text@
        },
        0 <= i < offsets.len() ==> byte_offset::numbers(offsets)[i] == offsets[i],
{
}

} // verus!
