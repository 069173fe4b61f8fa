use crate::byte_offset;
use crate::link_parser;
use crate::link_path;
use crate::link_target;
use crate::markdown;
use crate::markdown::{MarkdownNode, NodeKind, NodeKindView, NodeView, SourcePos};
use crate::string_map::StringMap;
use crate::text;
use vstd::prelude::*;
use vstd::slice::slice_subrange;

verus! {

/// A move of notes, as the links of one note see it: where that note was and where it is now, and
/// where the notes that moved are now.
pub struct Relocation {
    pub old_source: Seq<char>,
    pub new_source: Seq<char>,
    pub moved: Map<Seq<char>, String>,
}

/// A note whose links are to be rewritten for a move: its text, and the move.
pub struct Job {
    pub markdown: Seq<char>,
    pub relocation: Relocation,
}

/// The note that a link is to lead to, given the one it led to: where that has moved to, or, for a
/// link written relative to a note that has moved, where it is. `None` if the link can stay.
pub open spec fn new_target(m: Relocation, resolved: Seq<char>, relative: bool) -> Option<Seq<char>> {
    if m.moved.contains_key(resolved) {
        Some(m.moved[resolved]@)
    } else if m.old_source != m.new_source && relative {
        Some(resolved)
    } else {
        None
    }
}

/// The new destination of a Markdown link with destination `url`.
pub open spec fn new_href(m: Relocation, url: Seq<char>) -> Option<Seq<char>> {
    if link_target::external_url(url) {
        None
    } else {
        match link_target::internal_markdown_target(url) {
            Some(parsed) => match link_path::wiki_target(m.old_source, parsed) {
                Some(resolved) => match new_target(
                    m,
                    resolved,
                    link_path::note_relative(parsed),
                ) {
                    Some(target) => if link_path::note_relative(parsed) {
                        Some(link_path::markdown_href(m.new_source, target))
                    } else {
                        Some(target)
                    },
                    None => None,
                },
                None => None,
            },
            None => None,
        }
    }
}

/// The new text of a wiki link to `url`.
pub open spec fn new_wiki(m: Relocation, url: Seq<char>) -> Option<Seq<char>> {
    match link_target::wiki_link_target(url) {
        Some(target) => match link_path::wiki_target(m.old_source, target) {
            Some(resolved) => match new_target(m, resolved, link_path::note_relative(target)) {
                Some(note) => Some(
                    link_path::wiki_text(m.new_source, note, link_path::note_relative(target)),
                ),
                None => None,
            },
            None => None,
        },
        None => None,
    }
}

/// The move that the arguments of a rewriting function describe.
pub open spec fn relocation(
    old_source: Seq<char>,
    new_source: Seq<char>,
    target_map: StringMap<String>,
) -> Relocation {
    Relocation { old_source, new_source, moved: target_map@ }
}

/// The job that the arguments of a rewriting function describe.
pub open spec fn job_of(
    markdown: Seq<char>,
    old_source: Seq<char>,
    new_source: Seq<char>,
    target_map: StringMap<String>,
) -> Job {
    Job { markdown, relocation: relocation(old_source, new_source, target_map) }
}

/// The note that a link is to lead to, given the one it led to.
fn pick_target(
    old_source_path: &str,
    new_source_path: &str,
    target_map: &StringMap<String>,
    resolved: String,
    relative: bool,
) -> (r: Option<String>)
    ensures
        ({
            let m = relocation(old_source_path@, new_source_path@, *target_map);
            match r {
                Some(t) => new_target(m, resolved@, relative) == Some(t@),
                None => new_target(m, resolved@, relative) is None,
            }
        }),
{
    if let Some(mapped) = target_map.get(resolved.as_str()) {
        return Some(mapped.clone());
    }
    if relative && !text::same_text(old_source_path, new_source_path) {
        return Some(resolved);
    }
    None
}

/// The new destination of the Markdown link with destination `url` in a note that moves from
/// `old_source_path` to `new_source_path` while notes move as `target_map` says. `None` if the
/// link can stay.
pub fn plan_markdown_link(
    url: &str,
    old_source_path: &str,
    new_source_path: &str,
    target_map: &StringMap<String>,
) -> (r: Option<String>)
    ensures
        ({
            let m = relocation(old_source_path@, new_source_path@, *target_map);
            match r {
                Some(t) => new_href(m, url@) == Some(t@),
                None => new_href(m, url@) is None,
            }
        }),
{
    if link_target::is_external_url(url) {
        return None;
    }
    let parsed = match link_target::parse_internal_markdown_target(url) {
        Some(parsed) => parsed,
        None => {
            return None;
        },
    };
    let relative = link_path::is_note_relative_target(parsed.as_str());
    let resolved = match link_path::resolve_wiki_target(old_source_path, parsed.as_str()) {
        Some(resolved) => resolved,
        None => {
            return None;
        },
    };
    match pick_target(old_source_path, new_source_path, target_map, resolved, relative) {
        Some(target) => if relative {
            Some(link_path::format_markdown_link_href(new_source_path, target.as_str()))
        } else {
            Some(target)
        },
        None => None,
    }
}

/// The new text of the wiki link to `url` in a note that moves from `old_source_path` to
/// `new_source_path` while notes move as `target_map` says. `None` if the link can stay.
pub fn plan_wiki_link(
    url: &str,
    old_source_path: &str,
    new_source_path: &str,
    target_map: &StringMap<String>,
) -> (r: Option<String>)
    ensures
        ({
            let m = relocation(old_source_path@, new_source_path@, *target_map);
            match r {
                Some(t) => new_wiki(m, url@) == Some(t@),
                None => new_wiki(m, url@) is None,
            }
        }),
{
    let target = match link_target::parse_wiki_link_target(url) {
        Some(target) => target,
        None => {
            return None;
        },
    };
    let relative = link_path::is_note_relative_target(target.as_str());
    let resolved = match link_path::resolve_wiki_target(old_source_path, target.as_str()) {
        Some(resolved) => resolved,
        None => {
            return None;
        },
    };
    match pick_target(old_source_path, new_source_path, target_map, resolved, relative) {
        Some(note) => Some(
            link_path::format_wiki_target(new_source_path, note.as_str(), relative),
        ),
        None => None,
    }
}

/// The index of the last `](` in `s`, or -1 if there is none.
pub open spec fn last_bridge(s: Seq<char>) -> int
    decreases s.len(),
{
    if s.len() < 2 {
        -1
    } else if s[s.len() - 2] == ']' && s.last() == '(' {
        s.len() - 2
    } else {
        last_bridge(s.drop_last())
    }
}

fn find_last_bridge(s: &[char]) -> (r: Option<usize>)
    ensures
        match r {
            Some(i) => i == last_bridge(s@) && i + 1 < s@.len() && s@[i as int] == ']' && s@[i + 1]
                == '(',
            None => last_bridge(s@) == -1,
        },
{
    let mut n: usize = s.len();
    proof {
        assert(s@.take(s@.len() as int) =~= s@);
    }
    while n >= 2
        invariant
            n <= s@.len(),
            last_bridge(s@) == last_bridge(s@.take(n as int)),
        decreases n,
    {
        proof {
            assert(s@.take(n as int)[n - 2] == s@[n - 2]);
            assert(s@.take(n as int).last() == s@[n - 1]);
            assert(s@.take(n as int).drop_last() =~= s@.take(n - 1));
        }
        if s[n - 2] == ']' && s[n - 1] == '(' {
            return Some(n - 2);
        }
        n -= 1;
    }
    None
}

/// Whether a link destination is written in angle brackets.
pub open spec fn angle_wrapped(destination: Seq<char>) -> bool {
    destination.len() >= 2 && destination[0] == '<' && destination.last() == '>'
}

/// Whether a link destination holds white space.
pub open spec fn has_space(s: Seq<char>) -> bool {
    exists|i: int| 0 <= i < s.len() && text::is_space(#[trigger] s[i])
}

/// `span`, an inline link, with the destination `href`; `None` if it is no inline link. The
/// destination stands in angle brackets if the old one did or if it holds white space.
pub open spec fn with_href(span: Seq<char>, href: Seq<char>) -> Option<Seq<char>> {
    let split = last_bridge(span);
    if span.len() == 0 || span[0] != '[' || span.last() != ')' || split < 0 {
        None
    } else {
        let label = span.subrange(1, split);
        let old = text::trim(span.subrange(split + 2, span.len() - 1));
        let destination = if angle_wrapped(old) || has_space(href) {
            "<"@ + href + ">"@
        } else {
            href
        };
        Some("["@ + label + "]("@ + destination + ")"@)
    }
}

/// `span`, a wiki link, with the text `target` before its label; `None` if it is no wiki link.
pub open spec fn with_wiki(span: Seq<char>, target: Seq<char>) -> Option<Seq<char>> {
    if span.len() < 5 || !"[["@.is_prefix_of(span) || !"]]"@.is_suffix_of(span) {
        None
    } else {
        let inner = span.subrange(2, span.len() - 2);
        let bar = text::first_at(inner, '|');
        if bar < inner.len() {
            Some("[["@ + target + "|"@ + inner.skip(bar + 1) + "]]"@)
        } else {
            Some("[["@ + target + "]]"@)
        }
    }
}

/// `span`, an inline link, with the destination `href`.
pub fn replace_href(span: &[char], href: &str) -> (r: Option<Vec<char>>)
    ensures
        match r {
            Some(t) => with_href(span@, href@) == Some(t@),
            None => with_href(span@, href@) is None,
        },
{
    if span.len() == 0 || span[0] != '[' || span[span.len() - 1] != ')' {
        return None;
    }
    let split = match find_last_bridge(span) {
        Some(split) => split,
        None => {
            return None;
        },
    };
    let label = slice_subrange(span, 1, split);
    let old = text::trimmed(slice_subrange(span, split + 2, span.len() - 1));
    let wrapped = old.len() >= 2 && old[0] == '<' && old[old.len() - 1] == '>';
    let open = text::chars_of("[");
    let bridge = text::chars_of("](");
    let close = text::chars_of(")");
    let href_chars = text::chars_of(href);
    let mut out: Vec<char> = Vec::new();
    text::append(&mut out, open.as_slice());
    text::append(&mut out, label);
    text::append(&mut out, bridge.as_slice());
    if wrapped || link_target::markdown_destination_needs_angle_brackets(href) {
        let less = text::chars_of("<");
        let greater = text::chars_of(">");
        text::append(&mut out, less.as_slice());
        text::append(&mut out, href_chars.as_slice());
        text::append(&mut out, greater.as_slice());
    } else {
        text::append(&mut out, href_chars.as_slice());
    }
    text::append(&mut out, close.as_slice());
    proof {
        assert(out@ =~= with_href(span@, href@)->0);
    }
    Some(out)
}

/// `span`, a wiki link, with the text `target` before its label.
pub fn replace_wiki(span: &[char], target: &str) -> (r: Option<Vec<char>>)
    ensures
        match r {
            Some(t) => with_wiki(span@, target@) == Some(t@),
            None => with_wiki(span@, target@) is None,
        },
{
    let open = text::chars_of("[[");
    let close = text::chars_of("]]");
    if span.len() < 5 || !text::has_prefix(span, open.as_slice()) || !text::has_suffix(
        span,
        close.as_slice(),
    ) {
        return None;
    }
    let inner = slice_subrange(span, 2, span.len() - 2);
    let target_chars = text::chars_of(target);
    let mut out: Vec<char> = Vec::new();
    text::append(&mut out, open.as_slice());
    text::append(&mut out, target_chars.as_slice());
    let bar = text::find_first(inner, '|');
    if bar < inner.len() {
        let bar_chars = text::chars_of("|");
        text::append(&mut out, bar_chars.as_slice());
        text::append(&mut out, slice_subrange(inner, bar + 1, inner.len()));
        assert(inner@.subrange(bar + 1, inner@.len() as int) =~= inner@.skip(bar + 1));
    }
    text::append(&mut out, close.as_slice());
    proof {
        assert(out@ =~= with_wiki(span@, target@)->0);
    }
    Some(out)
}

/// A piece of text to put in place of the bytes from `start` to `end`.
pub struct Edit {
    pub start: usize,
    pub end: usize,
    pub text: Vec<char>,
}

/// What an edit holds.
#[verifier::ext_equal]
pub struct EditView {
    pub start: int,
    pub end: int,
    pub text: Seq<char>,
}

impl View for Edit {
    type V = EditView;

    open spec fn view(&self) -> EditView {
        EditView { start: self.start as int, end: self.end as int, text: self.text@ }
    }
}

/// What the edits of `v` hold.
pub open spec fn edit_views(v: Seq<Edit>) -> Seq<EditView> {
    Seq::new(v.len(), |i: int| v[i]@)
}

/// What the link at place `i` is to be written as; `None` if it is no link or can stay.
pub open spec fn planned(m: Relocation, nodes: Seq<NodeView>, i: int) -> Option<Seq<char>> {
    match nodes[i].kind {
        NodeKindView::Link(url) => new_href(m, url),
        NodeKindView::WikiLink(url) => if link_parser::embedded(nodes, i) {
            None
        } else {
            new_wiki(m, url)
        },
        _ => None,
    }
}

/// `span`, a link of the kind `kind`, with its target written as `target`.
pub open spec fn with_target(kind: NodeKindView, span: Seq<char>, target: Seq<char>) -> Option<
    Seq<char>,
> {
    if kind is Link {
        with_href(span, target)
    } else {
        with_wiki(span, target)
    }
}

/// The byte range of the node at place `i`.
pub open spec fn node_range(job: Job, nodes: Seq<NodeView>, i: int) -> Option<(int, int)> {
    byte_offset::byte_range(byte_offset::line_starts(job.markdown), nodes[i].pos)
}

/// The edit that the node at place `i` asks for.
pub open spec fn node_edit(job: Job, nodes: Seq<NodeView>, i: int) -> Option<EditView> {
    match planned(job.relocation, nodes, i) {
        Some(target) => match node_range(job, nodes, i) {
            Some((start, end)) => if end > byte_offset::byte_len(job.markdown) {
                None
            } else {
                let span = byte_offset::byte_slice(job.markdown, start, end);
                match with_target(nodes[i].kind, span, target) {
                    Some(text) => if text == span {
                        None
                    } else {
                        Some(EditView { start, end, text })
                    },
                    None => None,
                }
            },
            None => None,
        },
        None => None,
    }
}

/// The edits that the first `n` nodes ask for.
pub open spec fn edits_among(job: Job, nodes: Seq<NodeView>, n: int) -> Seq<EditView>
    decreases n,
{
    if n <= 0 {
        Seq::empty()
    } else {
        match node_edit(job, nodes, n - 1) {
            Some(edit) => edits_among(job, nodes, n - 1).push(edit),
            None => edits_among(job, nodes, n - 1),
        }
    }
}

/// `edits`, which begin ever further left, with `edit` at its place behind those that begin
/// further right or at the same byte.
pub open spec fn placed(edits: Seq<EditView>, edit: EditView) -> Seq<EditView>
    decreases edits.len(),
{
    if edits.len() == 0 || edits.last().start >= edit.start {
        edits.push(edit)
    } else {
        placed(edits.drop_last(), edit).push(edits.last())
    }
}

/// `edits` from the one that begins furthest right to the one that begins furthest left; those
/// that begin at the same byte stay in order.
pub open spec fn right_to_left(edits: Seq<EditView>) -> Seq<EditView>
    decreases edits.len(),
{
    if edits.len() == 0 {
        Seq::empty()
    } else {
        placed(right_to_left(edits.drop_last()), edits.last())
    }
}

/// The edits that the links of the note ask for, from right to left.
pub open spec fn all_edits(job: Job, nodes: Seq<NodeView>) -> Seq<EditView> {
    right_to_left(edits_among(job, nodes, nodes.len() as int))
}

/// Whether `edit` replaces whole characters of `s`.
pub open spec fn applies(s: Seq<char>, edit: EditView) -> bool {
    &&& edit.start <= edit.end
    &&& byte_offset::on_boundary(s, edit.start)
    &&& byte_offset::on_boundary(s, edit.end)
}

/// `s` with the bytes from the start to the end of `edit` replaced by its text.
pub open spec fn spliced(s: Seq<char>, edit: EditView) -> Seq<char> {
    s.take(byte_offset::char_index(s, edit.start)) + edit.text + s.skip(
        byte_offset::char_index(s, edit.end),
    )
}

/// `s` after the first `n` of `edits`, made one after the other.
pub open spec fn edited(s: Seq<char>, edits: Seq<EditView>, n: int) -> Seq<char>
    decreases n,
{
    if n <= 0 {
        s
    } else {
        spliced(edited(s, edits, n - 1), edits[n - 1])
    }
}

/// Whether each of `edits` replaces whole characters of what those before it leave of `s`.
pub open spec fn all_apply(s: Seq<char>, edits: Seq<EditView>) -> bool {
    forall|k: int|
        0 <= k < edits.len() ==> #[trigger] applies(edited(s, edits, k), edits[k])
}

/// Whether the node at place `i`, if it is a link to be rewritten, covers whole characters.
pub open spec fn cuts_cleanly(job: Job, nodes: Seq<NodeView>, i: int) -> bool {
    planned(job.relocation, nodes, i) is Some ==> {
        &&& byte_offset::range_fits(byte_offset::line_starts(job.markdown), nodes[i].pos)
        &&& match node_range(job, nodes, i) {
            Some((start, end)) => end <= byte_offset::byte_len(job.markdown) ==> {
                &&& start <= end
                &&& byte_offset::on_boundary(job.markdown, start)
                &&& byte_offset::on_boundary(job.markdown, end)
            },
            None => true,
        }
    }
}

/// Whether the links to be rewritten stand at whole characters of the text, before and while they
/// are rewritten.
pub open spec fn rewritable(job: Job, nodes: Seq<NodeView>) -> bool {
    &&& forall|i: int| 0 <= i < nodes.len() ==> #[trigger] cuts_cleanly(job, nodes, i)
    &&& all_apply(job.markdown, all_edits(job, nodes))
}

/// The text of the note with its links rewritten.
pub open spec fn rewritten(job: Job, nodes: Seq<NodeView>) -> Seq<char> {
    let edits = all_edits(job, nodes);
    edited(job.markdown, edits, edits.len() as int)
}

/// A note whose links have been looked over, and whether any of them was changed.
#[derive(Debug, Clone)]
pub struct RewriteResult {
    pub markdown: String,
    pub changed: bool,
}

/// What the link at place `i` is to be written as.
fn plan_node(
    nodes: &Vec<MarkdownNode>,
    i: usize,
    old_source_path: &str,
    new_source_path: &str,
    target_map: &StringMap<String>,
) -> (r: Option<String>)
    requires
        i < nodes.len(),
    ensures
        ({
            let m = relocation(old_source_path@, new_source_path@, *target_map);
            match r {
                Some(t) => planned(m, markdown::node_views(nodes@), i as int) == Some(t@),
                None => planned(m, markdown::node_views(nodes@), i as int) is None,
            }
        }),
{
    proof {
        assert(markdown::node_views(nodes@)[i as int] == nodes@[i as int]@);
    }
    match &nodes[i].kind {
        NodeKind::Link(url) => plan_markdown_link(
            url.as_str(),
            old_source_path,
            new_source_path,
            target_map,
        ),
        NodeKind::WikiLink(url) => if link_parser::is_embedded_wikilink(nodes, i) {
            None
        } else {
            plan_wiki_link(url.as_str(), old_source_path, new_source_path, target_map)
        },
        _ => None,
    }
}

/// Whether `pos` gives a range in machine integers.
fn range_in_reach(line_starts: &Vec<usize>, pos: SourcePos) -> (r: bool)
    ensures
        r == byte_offset::range_fits(byte_offset::numbers(line_starts@), pos),
{
    if pos.start_line == 0 || pos.end_line == 0 || pos.start_line > line_starts.len()
        || pos.end_line > line_starts.len() {
        return true;
    }
    let start_offset = line_starts[pos.start_line - 1];
    let end_offset = line_starts[pos.end_line - 1];
    if pos.start_column > usize::MAX - start_offset || pos.end_column > usize::MAX - end_offset {
        return false;
    }
    start_offset + pos.start_column > 0
}

/// The edit that one node asks for, and whether the node covers whole characters.
enum NodeOutcome {
    Unclean,
    Stay,
    Change(Edit),
}

fn node_outcome(
    chars: &Vec<char>,
    total: usize,
    line_starts: &Vec<usize>,
    nodes: &Vec<MarkdownNode>,
    i: usize,
    target: String,
    Ghost(job): Ghost<Job>,
) -> (r: NodeOutcome)
    requires
        i < nodes.len(),
        chars@ == job.markdown,
        total == byte_offset::byte_len(job.markdown),
        byte_offset::numbers(line_starts@) == byte_offset::line_starts(job.markdown),
        planned(job.relocation, markdown::node_views(nodes@), i as int) == Some(target@),
    ensures
        r is Unclean <==> !cuts_cleanly(job, markdown::node_views(nodes@), i as int),
        match r {
            NodeOutcome::Unclean => true,
            NodeOutcome::Stay => node_edit(job, markdown::node_views(nodes@), i as int) is None,
            NodeOutcome::Change(edit) => node_edit(job, markdown::node_views(nodes@), i as int)
                == Some(edit@),
        },
{
    let ghost views = markdown::node_views(nodes@);
    proof {
        assert(views[i as int] == nodes@[i as int]@);
    }
    let pos = nodes[i].pos;
    if !range_in_reach(line_starts, pos) {
        return NodeOutcome::Unclean;
    }
    let (start, end) = match byte_offset::sourcepos_to_byte_range(line_starts, pos) {
        Some(range) => range,
        None => {
            return NodeOutcome::Stay;
        },
    };
    if end > total {
        return NodeOutcome::Stay;
    }
    if start > end {
        return NodeOutcome::Unclean;
    }
    let from = match byte_offset::find_char_index(chars.as_slice(), start) {
        Some(from) => from,
        None => {
            return NodeOutcome::Unclean;
        },
    };
    let to = match byte_offset::find_char_index(chars.as_slice(), end) {
        Some(to) => to,
        None => {
            return NodeOutcome::Unclean;
        },
    };
    proof {
        if to < from {
            byte_offset::lemma_byte_len_grows(job.markdown, to as int, from as int);
        }
    }
    let span = slice_subrange(chars.as_slice(), from, to);
    let replacement = match &nodes[i].kind {
        NodeKind::Link(_) => replace_href(span, target.as_str()),
        _ => replace_wiki(span, target.as_str()),
    };
    match replacement {
        Some(text) => {
            if text::same_chars(text.as_slice(), span) {
                NodeOutcome::Stay
            } else {
                NodeOutcome::Change(Edit { start, end, text })
            }
        },
        None => NodeOutcome::Stay,
    }
}

/// The place of `edit` among `edits`, and `edits` with it there.
fn place_edit(edits: &mut Vec<Edit>, edit: Edit)
    ensures
        edit_views(final(edits)@) == placed(edit_views(old(edits)@), edit@),
{
    let ghost before = edit_views(edits@);
    let mut at: usize = edits.len();
    proof {
        assert(before.take(before.len() as int) =~= before);
        assert(placed(before, edit@) =~= placed(before.take(at as int), edit@) + before.skip(
            at as int,
        ));
    }
    while at > 0 && edits[at - 1].start < edit.start
        invariant
            at <= edits@.len(),
            edits@ == old(edits)@,
            before == edit_views(edits@),
            placed(before, edit@) == placed(before.take(at as int), edit@) + before.skip(
                at as int,
            ),
        decreases at,
    {
        proof {
            let cur = before.take(at as int);
            assert(cur.last() == edits@[at - 1]@);
            assert(cur.drop_last() =~= before.take(at - 1));
            assert(placed(cur.drop_last(), edit@).push(cur.last()) + before.skip(at as int)
                =~= placed(before.take(at - 1), edit@) + before.skip(at - 1));
        }
        at -= 1;
    }
    proof {
        let cur = before.take(at as int);
        if at > 0 {
            assert(cur.last() == edits@[at - 1]@);
        }
        assert(placed(cur, edit@) == cur.push(edit@));
    }
    edits.insert(at, edit);
    proof {
        assert(edit_views(edits@) =~= before.take(at as int).push(edit@) + before.skip(at as int));
    }
}

/// Rewrites the links of a note, or gives up with `None` where a link to be rewritten does not
/// stand at whole characters.
fn try_rewrite(
    markdown: &str,
    nodes: &Vec<MarkdownNode>,
    old_source_path: &str,
    new_source_path: &str,
    target_map: &StringMap<String>,
) -> (r: Option<RewriteResult>)
    ensures
        ({
            let job = job_of(markdown@, old_source_path@, new_source_path@, *target_map);
            let views = markdown::node_views(nodes@);
            match r {
                Some(result) => {
                    &&& rewritable(job, views)
                    &&& result.markdown@ == rewritten(job, views)
                    &&& result.changed == (all_edits(job, views).len() > 0)
                },
                None => !rewritable(job, views),
            }
        }),
{
    let ghost job = job_of(markdown@, old_source_path@, new_source_path@, *target_map);
    let ghost views = markdown::node_views(nodes@);
    let chars = text::chars_of(markdown);
    let total = markdown.as_bytes().len();
    let line_starts = byte_offset::compute_line_starts(markdown);
    let mut edits: Vec<Edit> = Vec::new();
    let mut i: usize = 0;
    proof {
        assert(edit_views(edits@) =~= Seq::<EditView>::empty());
    }
    while i < nodes.len()
        invariant
            i <= nodes@.len(),
            job == job_of(markdown@, old_source_path@, new_source_path@, *target_map),
            views == markdown::node_views(nodes@),
            chars@ == markdown@,
            total == byte_offset::byte_len(markdown@),
            byte_offset::numbers(line_starts@) == byte_offset::line_starts(markdown@),
            forall|k: int| 0 <= k < i ==> #[trigger] cuts_cleanly(job, views, k),
            edit_views(edits@) == right_to_left(edits_among(job, views, i as int)),
        decreases nodes.len() - i,
    {
        proof {
            let now = edits_among(job, views, i + 1);
            let before = edits_among(job, views, i as int);
            match node_edit(job, views, i as int) {
                Some(edit) => {
                    assert(now.drop_last() =~= before);
                    assert(now.last() == edit);
                },
                None => {},
            }
        }
        match plan_node(nodes, i, old_source_path, new_source_path, target_map) {
            Some(target) => {
                match node_outcome(&chars, total, &line_starts, nodes, i, target, Ghost(job)) {
                    NodeOutcome::Unclean => {
                        return None;
                    },
                    NodeOutcome::Stay => {},
                    NodeOutcome::Change(edit) => {
                        place_edit(&mut edits, edit);
                    },
                }
            },
            None => {},
        }
        i += 1;
    }
    let ghost all = all_edits(job, views);
    let mut current = chars;
    let mut k: usize = 0;
    while k < edits.len()
        invariant
            k <= edits@.len(),
            views == markdown::node_views(nodes@),
            job == job_of(markdown@, old_source_path@, new_source_path@, *target_map),
            all == all_edits(job, views),
            edit_views(edits@) == all,
            current@ == edited(markdown@, all, k as int),
            forall|j: int| 0 <= j < k ==> #[trigger] applies(edited(markdown@, all, j), all[j]),
        decreases edits.len() - k,
    {
        let edit = &edits[k];
        proof {
            assert(all[k as int] == edit@);
            assert(current@ == edited(job.markdown, all, k as int));
        }
        if edit.start > edit.end {
            assert(!applies(edited(job.markdown, all, k as int), all[k as int]));
            return None;
        }
        let from = match byte_offset::find_char_index(current.as_slice(), edit.start) {
            Some(from) => from,
            None => {
                assert(!applies(edited(job.markdown, all, k as int), all[k as int]));
                return None;
            },
        };
        let to = match byte_offset::find_char_index(current.as_slice(), edit.end) {
            Some(to) => to,
            None => {
                assert(!applies(edited(job.markdown, all, k as int), all[k as int]));
                return None;
            },
        };
        let mut next: Vec<char> = Vec::new();
        text::append(&mut next, slice_subrange(current.as_slice(), 0, from));
        text::append(&mut next, edit.text.as_slice());
        text::append(&mut next, slice_subrange(current.as_slice(), to, current.len()));
        proof {
            assert(current@.subrange(0, from as int) =~= current@.take(from as int));
            assert(current@.subrange(to as int, current@.len() as int) =~= current@.skip(to as int));
            assert(next@ =~= spliced(current@, edit@));
        }
        current = next;
        k += 1;
    }
    Some(
        RewriteResult { markdown: text::string_of(current.as_slice()), changed: edits.len() > 0 },
    )
}

/// Whether `r` is what becomes of the note of `job`, which has the nodes `nodes`: its links are
/// rewritten, unless one to be rewritten does not stand at whole characters.
pub open spec fn is_rewrite(r: RewriteResult, job: Job, nodes: Seq<NodeView>) -> bool {
    if rewritable(job, nodes) {
        &&& r.markdown@ == rewritten(job, nodes)
        &&& r.changed == (all_edits(job, nodes).len() > 0)
    } else {
        r.markdown@ == job.markdown && !r.changed
    }
}

/// Rewrites the links of the note `markdown`, which has the nodes `nodes`, for its move from
/// `old_source_path` to `new_source_path` while notes move as `target_map` says. A note of which a
/// link to be rewritten does not stand at whole characters is left as it is.
pub fn rewrite_nodes(
    markdown: &str,
    nodes: &Vec<MarkdownNode>,
    old_source_path: &str,
    new_source_path: &str,
    target_map: &StringMap<String>,
) -> (r: RewriteResult)
    ensures
        is_rewrite(
            r,
            job_of(markdown@, old_source_path@, new_source_path@, *target_map),
            markdown::node_views(nodes@),
        ),
{
    match try_rewrite(markdown, nodes, old_source_path, new_source_path, target_map) {
        Some(result) => result,
        None => RewriteResult { markdown: markdown.to_owned(), changed: false },
    }
}

/// Rewrites the links of the note `markdown` for its move from `old_source_path` to
/// `new_source_path` while notes move as `target_map` says. A note of which a link to be rewritten
/// does not stand at whole characters is left as it is.
pub fn rewrite_links(
    markdown: &str,
    old_source_path: &str,
    new_source_path: &str,
    target_map: &StringMap<String>,
) -> (r: RewriteResult)
    ensures
        is_rewrite(
            r,
            job_of(markdown@, old_source_path@, new_source_path@, *target_map),
            markdown::note_nodes(markdown@),
        ),
{
    let nodes = markdown::parse_markdown(markdown);
    rewrite_nodes(markdown, &nodes, old_source_path, new_source_path, target_map)
}

} // verus!
