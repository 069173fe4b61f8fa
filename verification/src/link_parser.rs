use crate::link_path;
use crate::link_target;
use crate::link_target::{ExternalLink, ExternalLinkView};
use crate::markdown;
use crate::markdown::{MarkdownNode, NodeKind, NodeKindView, NodeView};
use crate::text;
use vstd::prelude::*;

verus! {

/// What one node adds to the plain text around it.
pub open spec fn text_piece(kind: NodeKindView) -> Seq<char> {
    match kind {
        NodeKindView::Text(literal) => literal,
        NodeKindView::Code(literal) => literal,
        NodeKindView::SoftBreak => seq![' '],
        NodeKindView::LineBreak => seq![' '],
        _ => Seq::empty(),
    }
}

/// The text of the nodes from place `from` on that lie deeper than `depth`, up to the first that
/// does not.
pub open spec fn text_below(nodes: Seq<NodeView>, depth: usize, from: int) -> Seq<char>
    decreases nodes.len() - from,
{
    if from < 0 || from >= nodes.len() || nodes[from].depth <= depth {
        Seq::empty()
    } else {
        text_piece(nodes[from].kind) + text_below(nodes, depth, from + 1)
    }
}

/// The plain text inside the node at place `i`.
pub open spec fn plain_text(nodes: Seq<NodeView>, i: int) -> Seq<char> {
    text::trim(text_below(nodes, nodes[i].depth, i + 1))
}

/// The plain text inside the node at place `i`, without white space around it.
pub fn collect_plain_text(nodes: &Vec<MarkdownNode>, i: usize) -> (r: String)
    requires
        i < nodes.len(),
    ensures
        r@ == plain_text(markdown::node_views(nodes@), i as int),
{
    let mut out: Vec<char> = Vec::new();
    let depth = nodes[i].depth;
    let mut j: usize = i + 1;
    let ghost views = markdown::node_views(nodes@);
    let ghost all = text_below(views, depth, i + 1);
    proof {
        assert(out@ + all =~= all);
    }
    while j < nodes.len() && nodes[j].depth > depth
        invariant
            j <= nodes@.len(),
            views == markdown::node_views(nodes@),
            out@ + text_below(views, depth, j as int) == all,
        decreases nodes.len() - j,
    {
        let ghost before = out@;
        proof {
            assert(views[j as int] == nodes@[j as int]@);
        }
        match &nodes[j].kind {
            NodeKind::Text(literal) => {
                let piece = text::chars_of(literal.as_str());
                text::append(&mut out, piece.as_slice());
            },
            NodeKind::Code(literal) => {
                let piece = text::chars_of(literal.as_str());
                text::append(&mut out, piece.as_slice());
            },
            NodeKind::SoftBreak => {
                out.push(' ');
            },
            NodeKind::LineBreak => {
                out.push(' ');
            },
            _ => {},
        }
        proof {
            let piece = text_piece(views[j as int].kind);
            assert(out@ =~= before + piece);
            assert(out@ + text_below(views, depth, j + 1) =~= before + (piece + text_below(
                views,
                depth,
                j + 1,
            )));
        }
        j += 1;
    }
    proof {
        if j < nodes.len() {
            assert(views[j as int] == nodes@[j as int]@);
        }
        assert(out@ + text_below(views, depth, j as int) =~= out@);
    }
    text::string_of(text::trimmed(out.as_slice()))
}

/// The last place up to `from` whose node stands at `depth`, if none on the way stands higher.
pub open spec fn sibling_before(nodes: Seq<NodeView>, depth: usize, from: int) -> Option<int>
    decreases from + 1,
{
    if from < 0 || from >= nodes.len() || nodes[from].depth < depth {
        None
    } else if nodes[from].depth == depth {
        Some(from)
    } else {
        sibling_before(nodes, depth, from - 1)
    }
}

/// Whether the wiki link at place `i` is an embed: text that ends in an exclamation mark, not
/// escaped, stands right before it.
pub open spec fn embedded(nodes: Seq<NodeView>, i: int) -> bool {
    match sibling_before(nodes, nodes[i].depth, i - 1) {
        Some(j) => match nodes[j].kind {
            NodeKindView::Text(literal) => link_target::unescaped_bang(literal),
            _ => false,
        },
        None => false,
    }
}

/// Whether the wiki link at place `i` is an embed.
pub fn is_embedded_wikilink(nodes: &Vec<MarkdownNode>, i: usize) -> (r: bool)
    requires
        i < nodes.len(),
    ensures
        r == embedded(markdown::node_views(nodes@), i as int),
{
    let depth = nodes[i].depth;
    let mut j: usize = i;
    let ghost views = markdown::node_views(nodes@);
    while j > 0
        invariant
            j <= i < nodes@.len(),
            views == markdown::node_views(nodes@),
            depth == views[i as int].depth,
            sibling_before(views, depth, i - 1) == sibling_before(views, depth, j - 1),
        decreases j,
    {
        proof {
            assert(views[j - 1] == nodes@[j - 1]@);
        }
        if nodes[j - 1].depth < depth {
            return false;
        }
        if nodes[j - 1].depth == depth {
            return match &nodes[j - 1].kind {
                NodeKind::Text(literal) => link_target::ends_with_unescaped_bang(literal.as_str()),
                _ => false,
            };
        }
        j -= 1;
    }
    false
}

/// The note that a Markdown link with destination `url` leads to.
pub open spec fn markdown_link_note(url: Seq<char>, source_path: Seq<char>) -> Option<Seq<char>> {
    match link_target::internal_markdown_target(url) {
        Some(target) => link_path::wiki_target(source_path, target),
        None => None,
    }
}

/// The note that a Markdown link with destination `url` in the note at `source_path` leads to.
pub fn parse_link_node(url: &str, source_path: &str) -> (r: Option<String>)
    ensures
        match r {
            Some(p) => markdown_link_note(url@, source_path@) == Some(p@),
            None => markdown_link_note(url@, source_path@) is None,
        },
{
    match link_target::parse_internal_markdown_target(url) {
        Some(target) => link_path::resolve_wiki_target(source_path, target.as_str()),
        None => None,
    }
}

/// The note that a wiki link to `url` leads to.
pub open spec fn wiki_link_note(url: Seq<char>, source_path: Seq<char>) -> Option<Seq<char>> {
    match link_target::wiki_link_target(url) {
        Some(target) => link_path::wiki_target(source_path, target),
        None => None,
    }
}

/// The note that a wiki link to `url` in the note at `source_path` leads to.
pub fn parse_wikilink_node(url: &str, source_path: &str) -> (r: Option<String>)
    ensures
        match r {
            Some(p) => wiki_link_note(url@, source_path@) == Some(p@),
            None => wiki_link_note(url@, source_path@) is None,
        },
{
    match link_target::parse_wiki_link_target(url) {
        Some(target) => link_path::resolve_wiki_target(source_path, target.as_str()),
        None => None,
    }
}

/// The links of a note: the notes that its Markdown links and its wiki links lead to, and its
/// links to the web.
#[derive(Debug)]
pub struct ParsedLinks {
    pub markdown_targets: Vec<String>,
    pub wiki_targets: Vec<String>,
    pub external_links: Vec<ExternalLink>,
}

/// What the links of a note hold.
#[verifier::ext_equal]
pub struct LinksView {
    pub markdown: Seq<Seq<char>>,
    pub wiki: Seq<Seq<char>>,
    pub external: Seq<ExternalLinkView>,
}

impl View for ParsedLinks {
    type V = LinksView;

    open spec fn view(&self) -> LinksView {
        LinksView {
            markdown: text::texts(self.markdown_targets@),
            wiki: text::texts(self.wiki_targets@),
            external: link_target::external_views(self.external_links@),
        }
    }
}

/// `s` with the text that `item` holds, if it holds one, at its end.
pub open spec fn push_some(s: Seq<Seq<char>>, item: Option<Seq<char>>) -> Seq<Seq<char>> {
    match item {
        Some(value) => s.push(value),
        None => s,
    }
}

/// The link to the web that the node at place `i` with destination `url` makes. It shows its
/// plain text, or its address where it has no text.
pub open spec fn external_link(nodes: Seq<NodeView>, i: int, url: Seq<char>) -> ExternalLinkView {
    let shown = plain_text(nodes, i);
    ExternalLinkView {
        url,
        text: if shown.len() == 0 {
            url
        } else {
            shown
        },
    }
}

/// The links among the first `n` nodes of the note at `source_path`.
pub open spec fn links_among(nodes: Seq<NodeView>, n: int, source_path: Seq<char>) -> LinksView
    decreases n,
{
    if n <= 0 {
        LinksView { markdown: Seq::empty(), wiki: Seq::empty(), external: Seq::empty() }
    } else {
        let before = links_among(nodes, n - 1, source_path);
        match nodes[n - 1].kind {
            NodeKindView::Link(url) => if link_target::external_url(url) {
                LinksView {
                    external: before.external.push(external_link(nodes, n - 1, url)),
                    ..before
                }
            } else {
                LinksView {
                    markdown: push_some(before.markdown, markdown_link_note(url, source_path)),
                    ..before
                }
            },
            NodeKindView::WikiLink(url) => if embedded(nodes, n - 1) {
                before
            } else {
                LinksView {
                    wiki: push_some(before.wiki, wiki_link_note(url, source_path)),
                    ..before
                }
            },
            _ => before,
        }
    }
}

/// The links of a note with these nodes at `source_path`, each kind in the order of the text.
pub open spec fn all_links(nodes: Seq<NodeView>, source_path: Seq<char>) -> LinksView {
    links_among(nodes, nodes.len() as int, source_path)
}

/// Collects the links among `nodes`, the nodes of the note at `source_path`.
pub fn links_of_nodes(nodes: &Vec<MarkdownNode>, source_path: &str) -> (r: ParsedLinks)
    ensures
        r@ == all_links(markdown::node_views(nodes@), source_path@),
{
    let mut parsed = ParsedLinks {
        markdown_targets: Vec::new(),
        wiki_targets: Vec::new(),
        external_links: Vec::new(),
    };
    let ghost views = markdown::node_views(nodes@);
    let mut i: usize = 0;
    proof {
        assert(parsed@ =~= links_among(views, 0, source_path@));
    }
    while i < nodes.len()
        invariant
            i <= nodes@.len(),
            views == markdown::node_views(nodes@),
            parsed@ == links_among(views, i as int, source_path@),
        decreases nodes.len() - i,
    {
        let ghost before = parsed;
        proof {
            assert(views[i as int] == nodes@[i as int]@);
        }
        match &nodes[i].kind {
            NodeKind::Link(url) => {
                if link_target::is_external_url(url.as_str()) {
                    let shown = collect_plain_text(nodes, i);
                    let label = if shown.as_str().is_empty() {
                        url.clone()
                    } else {
                        shown
                    };
                    parsed.external_links.push(ExternalLink { url: url.clone(), text: label });
                    assert(parsed@.external =~= before@.external.push(
                        external_link(views, i as int, url@),
                    ));
                } else {
                    if let Some(target) = parse_link_node(url.as_str(), source_path) {
                        parsed.markdown_targets.push(target);
                        assert(parsed@.markdown =~= before@.markdown.push(target@));
                    }
                }
            },
            NodeKind::WikiLink(url) => {
                if !is_embedded_wikilink(nodes, i) {
                    if let Some(target) = parse_wikilink_node(url.as_str(), source_path) {
                        parsed.wiki_targets.push(target);
                        assert(parsed@.wiki =~= before@.wiki.push(target@));
                    }
                }
            },
            _ => {},
        }
        i += 1;
    }
    parsed
}

/// The links of the note at `source_path` with the text `markdown`.
pub open spec fn note_links(markdown: Seq<char>, source_path: Seq<char>) -> LinksView {
    all_links(markdown::note_nodes(markdown), source_path)
}

/// Collects the links of the note at `source_path` with the text `markdown`.
pub fn parse_all_links(markdown: &str, source_path: &str) -> (r: ParsedLinks)
    ensures
        r@ == note_links(markdown@, source_path@),
{
    let nodes = markdown::parse_markdown(markdown);
    links_of_nodes(&nodes, source_path)
}

/// The notes that the Markdown links of a note lead to.
pub fn gfm_link_targets(markdown: &str, source_path: &str) -> (r: Vec<String>)
    ensures
        text::texts(r@) == note_links(markdown@, source_path@).markdown,
{
    parse_all_links(markdown, source_path).markdown_targets
}

/// The notes that the wiki links of a note lead to.
pub fn wiki_link_targets(markdown: &str, source_path: &str) -> (r: Vec<String>)
    ensures
        text::texts(r@) == note_links(markdown@, source_path@).wiki,
{
    parse_all_links(markdown, source_path).wiki_targets
}

/// The notes that `links` lead to: those of the Markdown links, then those of the wiki links.
pub open spec fn internal_targets(links: LinksView) -> Seq<Seq<char>> {
    links.markdown + links.wiki
}

/// The notes that `parsed` leads to: those of the Markdown links, then those of the wiki links.
pub fn internal_targets_of(parsed: ParsedLinks) -> (r: Vec<String>)
    ensures
        text::texts(r@) == internal_targets(parsed@),
{
    let mut out = parsed.markdown_targets;
    let mut wiki = parsed.wiki_targets;
    out.append(&mut wiki);
    proof {
        assert(text::texts(out@) =~= internal_targets(parsed@));
    }
    out
}

/// The notes that a note leads to: by its Markdown links, then by its wiki links.
pub fn internal_link_targets(markdown: &str, source_path: &str) -> (r: Vec<String>)
    ensures
        text::texts(r@) == internal_targets(note_links(markdown@, source_path@)),
{
    internal_targets_of(parse_all_links(markdown, source_path))
}

/// Where a note leads: to other notes and to the web.
#[derive(Debug, Clone, PartialEq, Eq)]
pub struct LocalLinksSnapshot {
    pub outlink_paths: Vec<String>,
    pub external_links: Vec<ExternalLink>,
}

/// The items of `s` other than `path`.
pub open spec fn other_than(s: Seq<Seq<char>>, path: Seq<char>) -> Seq<Seq<char>>
    decreases s.len(),
{
    if s.len() == 0 {
        Seq::empty()
    } else if s.last() == path {
        other_than(s.drop_last(), path)
    } else {
        other_than(s.drop_last(), path).push(s.last())
    }
}

/// `paths` without `path`.
pub fn without_path(paths: Vec<String>, path: &str) -> (r: Vec<String>)
    ensures
        text::texts(r@) == other_than(text::texts(paths@), path@),
{
    let mut out: Vec<String> = Vec::new();
    let ghost all = text::texts(paths@);
    let mut i: usize = 0;
    proof {
        assert(all.take(0) =~= Seq::<Seq<char>>::empty());
        assert(text::texts(out@) =~= Seq::<Seq<char>>::empty());
    }
    while i < paths.len()
        invariant
            i <= paths@.len(),
            all == text::texts(paths@),
            text::texts(out@) == other_than(all.take(i as int), path@),
        decreases paths.len() - i,
    {
        let ghost before = out@;
        proof {
            assert(all.take(i + 1).drop_last() =~= all.take(i as int));
            assert(all.take(i + 1).last() == paths@[i as int]@);
        }
        if !text::same_text(paths[i].as_str(), path) {
            out.push(paths[i].clone());
            assert(text::texts(out@) =~= text::texts(before).push(paths@[i as int]@));
        }
        i += 1;
    }
    proof {
        assert(all.take(paths@.len() as int) =~= all);
    }
    out
}

/// The snapshot of a note at `source_path` with these links.
pub fn snapshot_of_links(parsed: ParsedLinks, source_path: &str) -> (r: LocalLinksSnapshot)
    ensures
        text::texts(r.outlink_paths@) == link_target::first_occurrences(
            other_than(internal_targets(parsed@), source_path@),
        ),
        link_target::external_views(r.external_links@) == link_target::first_by_url(
            parsed@.external,
        ),
{
    let external = link_target::dedupe_external_links(parsed.external_links);
    let targets = internal_targets_of(
        ParsedLinks {
            markdown_targets: parsed.markdown_targets,
            wiki_targets: parsed.wiki_targets,
            external_links: Vec::new(),
        },
    );
    LocalLinksSnapshot {
        outlink_paths: link_target::dedupe_preserve_order(without_path(targets, source_path)),
        external_links: external,
    }
}

/// Where the note at `source_path` with the text `markdown` leads: to other notes, each once and
/// not to itself, and to the web, each address once.
pub fn extract_local_links_snapshot(markdown: &str, source_path: &str) -> (r: LocalLinksSnapshot)
    ensures
        text::texts(r.outlink_paths@) == link_target::first_occurrences(
            other_than(internal_targets(note_links(markdown@, source_path@)), source_path@),
        ),
        link_target::external_views(r.external_links@) == link_target::first_by_url(
            note_links(markdown@, source_path@).external,
        ),
{
    snapshot_of_links(parse_all_links(markdown, source_path), source_path)
}

} // verus!
