use self::NodeKind::{Code, LineBreak, Link, Other, SoftBreak, Text, WikiLink};
use comrak::nodes::NodeValue::{
    Code as CodeNode, LineBreak as LineBreakNode, Link as LinkNode, SoftBreak as SoftBreakNode,
    Text as TextNode, WikiLink as WikiLinkNode,
};
use comrak::{parse_document, Arena, Options};
use vstd::prelude::*;

verus! {

/// Where a node stands in its document: lines and columns count from 1, columns in bytes, and the
/// end is the last byte of the node.
#[derive(Debug, Clone, Copy, PartialEq, Eq)]
pub struct SourcePos {
    pub start_line: usize,
    pub start_column: usize,
    pub end_line: usize,
    pub end_column: usize,
}

/// What a node of a Markdown document is, as far as links are concerned.
#[derive(Debug)]
pub enum NodeKind {
    /// A link, with its destination.
    Link(String),
    /// A wiki link, with what it names.
    WikiLink(String),
    /// Plain text.
    Text(String),
    /// Inline code, with its content.
    Code(String),
    SoftBreak,
    LineBreak,
    Other,
}

/// A node of a Markdown document. The nodes of a document come in tree order, each one before
/// those inside it; `depth` counts the nodes on the way from the root, the node itself included.
#[derive(Debug)]
pub struct MarkdownNode {
    pub depth: usize,
    pub kind: NodeKind,
    pub pos: SourcePos,
}

/// What a node kind holds.
pub enum NodeKindView {
    Link(Seq<char>),
    WikiLink(Seq<char>),
    Text(Seq<char>),
    Code(Seq<char>),
    SoftBreak,
    LineBreak,
    Other,
}

/// What a node holds.
pub struct NodeView {
    pub depth: usize,
    pub kind: NodeKindView,
    pub pos: SourcePos,
}

impl View for NodeKind {
    type V = NodeKindView;

    open spec fn view(&self) -> NodeKindView {
        match self {
            NodeKind::Link(url) => NodeKindView::Link(url@),
            NodeKind::WikiLink(url) => NodeKindView::WikiLink(url@),
            NodeKind::Text(literal) => NodeKindView::Text(literal@),
            NodeKind::Code(literal) => NodeKindView::Code(literal@),
            NodeKind::SoftBreak => NodeKindView::SoftBreak,
            NodeKind::LineBreak => NodeKindView::LineBreak,
            NodeKind::Other => NodeKindView::Other,
        }
    }
}

impl View for MarkdownNode {
    type V = NodeView;

    open spec fn view(&self) -> NodeView {
        NodeView { depth: self.depth, kind: self.kind@, pos: self.pos }
    }
}

/// What the nodes of `v` hold.
pub open spec fn node_views(v: Seq<MarkdownNode>) -> Seq<NodeView> {
    Seq::new(v.len(), |i: int| v[i]@)
}

/// The node of kind `kind` at `depth`, from its first to its last line and column.
fn node_at(
    depth: usize,
    kind: NodeKind,
    start_line: usize,
    start_column: usize,
    end_line: usize,
    end_column: usize,
) -> (r: MarkdownNode)
    ensures
        r == (MarkdownNode {
            depth,
            kind,
            pos: SourcePos { start_line, start_column, end_line, end_column },
        }),
{
    MarkdownNode { depth, kind, pos: SourcePos { start_line, start_column, end_line, end_column } }
}

/// The extensions of CommonMark that notes are written with: links without brackets, tables, task
/// lists, struck-out text, and wiki links with their label behind the bar, in this order.
pub open spec fn note_extensions() -> (bool, bool, bool, bool, bool) {
    (true, true, true, true, true)
}

/// The extensions of CommonMark that notes are written with: all five.
pub fn markdown_options() -> (r: (bool, bool, bool, bool, bool))
    ensures
        r == note_extensions(),
{
    (true, true, true, true, true)
}

/// The nodes of the document that `comrak::parse_document` reads from `markdown`, in the order of
/// `descendants` on its root, when the extensions `autolink`, `table`, `tasklist`, `strikethrough`
/// and `wikilinks_title_after_pipe` are set as `extensions` says.
pub uninterp spec fn comrak_nodes(
    markdown: Seq<char>,
    extensions: (bool, bool, bool, bool, bool),
) -> Seq<NodeView>;

/// Calls `comrak::parse_document` with five extensions set as `extensions` says and everything
/// else at its default, and lists the tree that it returns as `descendants` walks it, each node
/// with the length of its `ancestors` walk, its value and its position. The result depends on the
/// text and on the extensions alone; which nodes a text has is left to the name `comrak_nodes`.
#[verifier::external_body]
fn comrak_parse(markdown: &str, extensions: (bool, bool, bool, bool, bool)) -> (nodes: Vec<
    MarkdownNode,
>)
    ensures
        node_views(nodes@) == comrak_nodes(markdown@, extensions),
{
    let mut o = Options::default();
    let e = &mut o.extension;
    (e.autolink, e.table, e.tasklist, e.strikethrough, e.wikilinks_title_after_pipe) = extensions;
    parse_document(&Arena::new(), markdown, &o).descendants().map(|n| {
        let ast = n.data.borrow().clone();
        let pos = ast.sourcepos;
        node_at(n.ancestors().count(), match ast.value {
            LinkNode(link) => Link(link.url),
            WikiLinkNode(link) => WikiLink(link.url),
            TextNode(text) => Text(text.into_owned()),
            CodeNode(code) => Code(code.literal),
            SoftBreakNode => SoftBreak,
            LineBreakNode => LineBreak,
            _ => Other
        }, pos.start.line, pos.start.column, pos.end.line, pos.end.column) }).collect()
}

/// The nodes of the document that `markdown` holds.
pub open spec fn note_nodes(markdown: Seq<char>) -> Seq<NodeView> {
    comrak_nodes(markdown, note_extensions())
}

/// Reads `markdown` as a note.
pub fn parse_markdown(markdown: &str) -> (nodes: Vec<MarkdownNode>)
    ensures
        node_views(nodes@) == note_nodes(markdown@),
{
    comrak_parse(markdown, markdown_options())
}

} // verus!
