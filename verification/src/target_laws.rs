use crate::link_parser;
use crate::link_parser::{LinksView, ParsedLinks};
use crate::link_path;
use crate::link_target;
use crate::link_target::{ExternalLink, ExternalLinkView};
use crate::markdown;
use crate::markdown::{MarkdownNode, NodeKind, NodeKindView, NodeView};
use crate::rewrite_laws;
use crate::text;
use crate::text_laws;
use crate::text_laws::{ascending, lemma_ascending_push};
use vstd::prelude::*;
use vstd::utf8::*;

verus! {

/// A hexadecimal digit stands for its value: 0 to 9 for themselves, and the letters, in either case,
/// for 10 to 15. No other byte is one.
pub proof fn law_hex_value(byte: u8)
    ensures
        48 <= byte <= 57 ==> link_target::hex_value(byte) == Some((byte - 48) as u8),
        97 <= byte <= 102 ==> link_target::hex_value(byte) == Some((byte - 87) as u8),
        65 <= byte <= 70 ==> link_target::hex_value(byte) == Some((byte - 55) as u8),
        !(48 <= byte <= 57) && !(97 <= byte <= 102) && !(65 <= byte <= 70)
            ==> link_target::hex_value(byte) is None,
{
}

/// A percent sign with two hexadecimal digits stands for one byte.
pub proof fn law_escape_is_decoded(high: u8, low: u8, rest: Seq<u8>)
    requires
        link_target::hex_value(high) is Some,
        link_target::hex_value(low) is Some,
    ensures
        link_target::percent_decoded(seq![37u8, high, low] + rest) == seq![
            (link_target::hex_value(high)->0 * 16 + link_target::hex_value(low)->0) as u8,
        ] + link_target::percent_decoded(rest),
{
    let all = seq![37u8, high, low] + rest;
    assert(all.skip(3) =~= rest);
    assert(link_target::starts_with_escape(all));
}

/// Any other byte stands for itself, a percent sign too if two hexadecimal digits do not follow it.
pub proof fn law_other_byte_stays(byte: u8, rest: Seq<u8>)
    requires
        byte != 37 || rest.len() < 2 || link_target::hex_value(rest[0]) is None
            || link_target::hex_value(rest[1]) is None,
    ensures
        link_target::percent_decoded(seq![byte] + rest) == seq![byte]
            + link_target::percent_decoded(rest),
        link_target::percent_decoded(Seq::<u8>::empty()) == Seq::<u8>::empty(),
{
    let all = seq![byte] + rest;
    assert(all.skip(1) =~= rest);
    if all.len() > 2 {
        assert(all[1] == rest[0]);
        assert(all[2] == rest[1]);
    }
}

/// Whether a text begins with `http://` or `https://`, in any case.
pub open spec fn begins_as_web(s: Seq<char>) -> bool {
    &&& s.len() >= 7
    &&& s[0] == 'h' || s[0] == 'H'
    &&& s[1] == 't' || s[1] == 'T'
    &&& s[2] == 't' || s[2] == 'T'
    &&& s[3] == 'p' || s[3] == 'P'
    &&& (s[4] == ':' && s[5] == '/' && s[6] == '/') || (s.len() >= 8 && (s[4] == 's' || s[4] == 'S')
        && s[5] == ':' && s[6] == '/' && s[7] == '/')
}

/// A link leads to the web just if it begins with `http://` or `https://`, in any case.
pub proof fn law_external_url(s: Seq<char>)
    ensures
        link_target::external_url(s) <==> begins_as_web(s),
{
    reveal_strlit("http://");
    reveal_strlit("https://");
    let low = text::ascii_lower(s);
    assert forall|i: int| 0 <= i < s.len() implies low[i] == text::lower(s[i]) by {}
    if "http://"@.is_prefix_of(low) {
        assert forall|i: int| 0 <= i < 7 implies #[trigger] low[i] == "http://"@[i] by {
            assert(low.take(7)[i] == low[i]);
        }
        assert(low[0] == 'h' && low[1] == 't' && low[2] == 't' && low[3] == 'p' && low[4] == ':'
            && low[5] == '/' && low[6] == '/');
    }
    if "https://"@.is_prefix_of(low) {
        assert forall|i: int| 0 <= i < 8 implies #[trigger] low[i] == "https://"@[i] by {
            assert(low.take(8)[i] == low[i]);
        }
        assert(low[0] == 'h' && low[1] == 't' && low[2] == 't' && low[3] == 'p' && low[4] == 's'
            && low[5] == ':' && low[6] == '/' && low[7] == '/');
    }
    if begins_as_web(s) {
        assert(low[0] == 'h' && low[1] == 't' && low[2] == 't' && low[3] == 'p');
        if s[4] == ':' && s[5] == '/' && s[6] == '/' {
            assert(low.take(7) =~= "http://"@);
        } else {
            assert(low[4] == 's' && low[5] == ':' && low[6] == '/' && low[7] == '/');
            assert(low.take(8) =~= "https://"@);
        }
    }
}

/// What stands before the first `c` of a text holds no `c` and is followed by one, or is the whole
/// text.
pub proof fn law_before_first(head: Seq<char>, c: char, tail: Seq<char>)
    requires
        !head.contains(c),
    ensures
        link_target::before_first(head, c) == head,
        link_target::before_first(head + seq![c] + tail, c) == head,
{
    text_laws::law_first_at(head, c);
    let i = text::first_at(head, c);
    if i < head.len() {
        assert(head[i] == c);
    }
    assert(head.take(head.len() as int) =~= head);
    let whole = head + seq![c] + tail;
    text_laws::law_first_at(whole, c);
    let j = text::first_at(whole, c);
    assert(whole[head.len() as int] == c);
    if j < head.len() {
        assert(head[j] == c);
    }
    assert(whole.take(head.len() as int) =~= head);
}

proof fn lemma_trim_twice(s: Seq<char>)
    ensures
        text::trim(text::trim(s)) == text::trim(s),
{
    let t = text::trim(s);
    let (a, b) = text_laws::law_trim(s);
    let none = Seq::<char>::empty();
    if t.len() > 0 {
        assert(t[0] == s[a]);
        assert(t.last() == s[b - 1]);
    }
    text_laws::law_trim_takes_off_what_was_put_around(none, t, none);
    assert(none + t + none =~= t);
}

proof fn lemma_without(s: Seq<char>, part: Seq<char>, from: int, c: char)
    requires
        !s.contains(c),
        0 <= from,
        from + part.len() <= s.len(),
        part == s.subrange(from, from + part.len()),
    ensures
        !part.contains(c),
{
    if part.contains(c) {
        let i = choose|i: int| 0 <= i < part.len() && part[i] == c;
        assert(s[from + i] == c);
    }
}

/// The target of a Markdown link is what stands before its fragment and its query, without white
/// space around it; it ends in `.md`.
pub proof fn law_markdown_target(raw: Seq<char>)
    ensures
        link_target::internal_markdown_target(text::trim(raw))
            == link_target::internal_markdown_target(raw),
        text::trim(raw).len() == 0 ==> link_target::internal_markdown_target(raw) is None,
        begins_as_web(text::trim(raw)) ==> link_target::internal_markdown_target(raw) is None,
        match link_target::internal_markdown_target(raw) {
            Some(path) => path.len() > 0 && link_path::has_md_extension(path) && !path.contains('#')
                && !path.contains('?') && text::trim(path) == path,
            None => true,
        },
{
    lemma_trim_twice(raw);
    law_external_url(text::trim(raw));
    let decoded = text::lossy_text(link_target::percent_decoded(encode_utf8(text::trim(raw))));
    let first = link_target::before_first(decoded, '#');
    let second = link_target::before_first(first, '?');
    text_laws::law_first_at(decoded, '#');
    text_laws::law_first_at(first, '?');
    assert(!first.contains('#'));
    lemma_without(first, second, 0, '#');
    assert(!second.contains('?'));
    let (a, b) = text_laws::law_trim(second);
    lemma_without(second, text::trim(second), a, '#');
    lemma_without(second, text::trim(second), a, '?');
    lemma_trim_twice(second);
}

/// A fragment or a query behind the target of a Markdown link does not change where it leads.
pub proof fn law_markdown_fragment_is_cut(target: Seq<char>, mark: char, tail: Seq<char>)
    requires
        link_target::stands_for_itself(target),
        !target.contains('?'),
        link_path::has_md_extension(target),
        mark == '#' || mark == '?',
        !(target + seq![mark] + tail).contains('%'),
        text::trim(target + seq![mark] + tail) == target + seq![mark] + tail,
    ensures
        link_target::internal_markdown_target(target + seq![mark] + tail) == Some(target),
{
    let whole = target + seq![mark] + tail;
    link_target::law_text_without_percent_signs_holds_no_escape(whole);
    link_target::law_text_without_escapes_decodes_to_itself(whole);
    lemma_not_external_longer(target, mark, tail);
    let first = link_target::before_first(whole, '#');
    if mark == '#' {
        law_before_first(target, '#', tail);
        law_before_first(target, '?', tail);
    } else {
        text_laws::law_first_at(whole, '#');
        let i = text::first_at(whole, '#');
        if i < whole.len() {
            if i < target.len() {
                assert(target[i] == '#');
            }
            assert(i > target.len());
            let cut = tail.take(i - target.len() - 1);
            assert(first =~= target + seq!['?'] + cut);
            law_before_first(target, '?', cut);
        } else {
            assert(first =~= whole);
            law_before_first(target, '?', tail);
        }
    }
}

proof fn lemma_not_external_longer(target: Seq<char>, mark: char, tail: Seq<char>)
    requires
        !link_target::external_url(target),
        mark == '#' || mark == '?',
    ensures
        !link_target::external_url(target + seq![mark] + tail),
{
    let whole = target + seq![mark] + tail;
    law_external_url(target);
    law_external_url(whole);
    if begins_as_web(whole) {
        assert(whole[target.len() as int] == mark);
        assert(target.len() >= 7);
        assert forall|i: int| 0 <= i < target.len() implies whole[i] == target[i] by {}
    }
}

/// The target of a Markdown link is decoded: what its escapes stand for is what it names.
pub proof fn law_markdown_target_is_decoded(raw: Seq<char>, decoded: Seq<char>)
    requires
        decoded == text::lossy_text(link_target::percent_decoded(encode_utf8(text::trim(raw)))),
        text::trim(raw).len() > 0,
        !begins_as_web(text::trim(raw)),
        decoded.len() > 0,
        !decoded.contains('#'),
        !decoded.contains('?'),
        text::trim(decoded) == decoded,
    ensures
        link_path::has_md_extension(decoded) ==> link_target::internal_markdown_target(raw) == Some(
            decoded,
        ),
        !link_path::has_md_extension(decoded) ==> link_target::internal_markdown_target(raw) is None,
{
    law_external_url(text::trim(raw));
    law_before_first(decoded, '#', Seq::empty());
    law_before_first(decoded, '?', Seq::empty());
}

/// The target of a wiki link is what stands before its fragment, without white space around it, with
/// its escapes decoded; one that is empty or leads to the web is none.
pub proof fn law_wiki_target_is_decoded(raw: Seq<char>, name: Seq<char>)
    requires
        name.len() > 0,
        !name.contains('#'),
        text::trim(name) == name,
        text::trim(raw) == name,
    ensures
        ({
            let decoded = text::lossy_text(link_target::percent_decoded(encode_utf8(name)));
            &&& decoded.len() > 0 && !begins_as_web(decoded) ==> link_target::wiki_link_target(raw)
                == Some(decoded)
            &&& decoded.len() == 0 || begins_as_web(decoded) ==> link_target::wiki_link_target(
                raw,
            ) is None
        }),
{
    law_before_first(name, '#', Seq::empty());
    law_external_url(text::lossy_text(link_target::percent_decoded(encode_utf8(name))));
}

/// A fragment behind the target of a wiki link does not change where it leads, and a wiki link that
/// is nothing but a fragment or white space leads nowhere.
pub proof fn law_wiki_fragment_is_cut(raw: Seq<char>, name: Seq<char>, space: Seq<char>, tail: Seq<
    char,
>)
    requires
        !name.contains('#'),
        !space.contains('#'),
        forall|i: int| 0 <= i < space.len() ==> text::is_space(#[trigger] space[i]),
        text::trim(name) == name,
        text::trim(raw) == name + space + seq!['#'] + tail,
    ensures
        name.len() > 0 ==> link_target::wiki_link_target(raw) == link_target::wiki_link_target(name),
        name.len() == 0 ==> link_target::wiki_link_target(raw) is None,
{
    let none = Seq::<char>::empty();
    let head = name + space;
    assert(!head.contains('#')) by {
        if head.contains('#') {
            let i = choose|i: int| 0 <= i < head.len() && head[i] == '#';
            if i < name.len() {
                assert(name[i] == '#');
            } else {
                assert(space[i - name.len()] == '#');
            }
        }
    }
    assert(name + space + seq!['#'] + tail =~= head + seq!['#'] + tail);
    law_before_first(head, '#', tail);
    law_before_first(name, '#', none);
    let (a, b) = text_laws::law_trim(name);
    if name.len() > 0 {
        assert(text::trim(name).len() == name.len());
        assert(a == 0 && b == name.len());
    }
    text_laws::law_trim_takes_off_what_was_put_around(none, name, space);
    assert(none + name + space =~= head);
}

/// Text that does not end in an exclamation mark makes no embed of what follows it; text that does
/// makes one just if an even number of backslashes stands before the mark.
pub proof fn law_unescaped_bang(s: Seq<char>, head: Seq<char>, n: int)
    requires
        n >= 0,
        head.len() == 0 || head.last() != '\\',
    ensures
        s.len() == 0 ==> !link_target::unescaped_bang(s),
        s.len() > 0 && s.last() != '!' ==> !link_target::unescaped_bang(s),
        link_target::unescaped_bang(head + Seq::new(n as nat, |i: int| '\\') + seq!['!']) <==> n % 2
            == 0,
{
    let slashes = Seq::new(n as nat, |i: int| '\\');
    let all = head + slashes + seq!['!'];
    assert(all.drop_last() =~= head + slashes);
    lemma_backslashes(head, n);
}

proof fn lemma_backslashes(head: Seq<char>, n: int)
    requires
        n >= 0,
        head.len() == 0 || head.last() != '\\',
    ensures
        link_target::trailing_backslashes(head + Seq::new(n as nat, |i: int| '\\')) == n,
    decreases n,
{
    let all = head + Seq::new(n as nat, |i: int| '\\');
    if n == 0 {
        assert(all =~= head);
    } else {
        lemma_backslashes(head, n - 1);
        assert(all.last() == '\\');
        assert(all.drop_last() =~= head + Seq::new((n - 1) as nat, |i: int| '\\'));
    }
}

/// Whether the node at place `j` stands right before the one at place `i`: both are at the same
/// depth, and all between them lie deeper.
pub open spec fn right_before(nodes: Seq<NodeView>, j: int, i: int) -> bool {
    &&& 0 <= j < i < nodes.len()
    &&& nodes[j].depth == nodes[i].depth
    &&& forall|k: int| j < k < i ==> (#[trigger] nodes[k]).depth > nodes[i].depth
}

/// Whether the node at place `j` is text that ends in an exclamation mark that is not escaped and
/// stands right before the node at place `i`.
pub open spec fn marks_embed(nodes: Seq<NodeView>, j: int, i: int) -> bool {
    &&& right_before(nodes, j, i)
    &&& match nodes[j].kind {
        NodeKindView::Text(literal) => link_target::unescaped_bang(literal),
        _ => false,
    }
}

proof fn lemma_sibling(nodes: Seq<NodeView>, i: int, from: int)
    requires
        0 <= i < nodes.len(),
        -1 <= from < i,
        forall|k: int| from < k < i ==> (#[trigger] nodes[k]).depth > nodes[i].depth,
    ensures
        match link_parser::sibling_before(nodes, nodes[i].depth, from) {
            Some(j) => right_before(nodes, j, i),
            None => forall|j: int| !(#[trigger] right_before(nodes, j, i)),
        },
    decreases from + 1,
{
    let depth = nodes[i].depth;
    if from >= 0 && nodes[from].depth > depth {
        lemma_sibling(nodes, i, from - 1);
    } else if from >= 0 && nodes[from].depth == depth {
        assert(right_before(nodes, from, i));
    } else {
        assert forall|j: int| !(#[trigger] right_before(nodes, j, i)) by {
            if right_before(nodes, j, i) {
                if from >= 0 && j < from {
                    assert(nodes[from].depth > nodes[i].depth);
                }
            }
        }
    }
}

/// A wiki link is an embed just if text stands right before it that ends in an exclamation mark that
/// is not escaped.
pub proof fn law_embed(nodes: Seq<NodeView>, i: int)
    requires
        0 <= i < nodes.len(),
    ensures
        link_parser::embedded(nodes, i) <==> exists|j: int| #[trigger] marks_embed(nodes, j, i),
{
    lemma_sibling(nodes, i, i - 1);
    match link_parser::sibling_before(nodes, nodes[i].depth, i - 1) {
        Some(j) => {
            if link_parser::embedded(nodes, i) {
                assert(marks_embed(nodes, j, i));
            }
            assert forall|k: int| #[trigger] marks_embed(nodes, k, i) implies k == j by {
                if k < j {
                    assert(nodes[j].depth > nodes[i].depth);
                }
                if j < k {
                    assert(nodes[k].depth > nodes[i].depth);
                }
            }
        },
        None => {
            assert forall|k: int| !(#[trigger] marks_embed(nodes, k, i)) by {
                assert(!right_before(nodes, k, i));
            }
        },
    }
}

/// Whether the node at place `i` is a wiki link that is followed: no text marks it as an embed, and
/// what it holds names a note.
pub open spec fn wiki_link_at(nodes: Seq<NodeView>, i: int, source: Seq<char>) -> bool {
    match nodes[i].kind {
        NodeKindView::WikiLink(url) => {
            &&& forall|j: int| !(#[trigger] marks_embed(nodes, j, i))
            &&& match link_target::wiki_link_target(url) {
                Some(target) => link_path::wiki_target(source, target) is Some,
                None => false,
            }
        },
        _ => false,
    }
}

/// Whether the node at place `i` is a Markdown link that is followed: it does not lead to the web,
/// and its destination names a note.
pub open spec fn markdown_link_at(nodes: Seq<NodeView>, i: int, source: Seq<char>) -> bool {
    match nodes[i].kind {
        NodeKindView::Link(url) => {
            &&& !begins_as_web(url)
            &&& match link_target::internal_markdown_target(url) {
                Some(target) => link_path::wiki_target(source, target) is Some,
                None => false,
            }
        },
        _ => false,
    }
}

/// Whether the node at place `i` is a link to the web.
pub open spec fn web_link_at(nodes: Seq<NodeView>, i: int) -> bool {
    match nodes[i].kind {
        NodeKindView::Link(url) => begins_as_web(url),
        _ => false,
    }
}

/// The notes that the wiki links of a note lead to are listed in the order of the text, one for
/// each wiki link that is followed.
pub proof fn law_wiki_links_are_listed(nodes: Seq<NodeView>, n: int, source: Seq<char>) -> (places:
    Seq<int>)
    requires
        0 <= n <= nodes.len(),
    ensures
        ascending(places, n),
        forall|i: int|
            0 <= i < n ==> (#[trigger] wiki_link_at(nodes, i, source) <==> places.contains(i)),
        link_parser::links_among(nodes, n, source).wiki.len() == places.len(),
        forall|k: int|
            0 <= k < places.len() ==> Some(
                #[trigger] link_parser::links_among(nodes, n, source).wiki[k],
            ) == link_path::wiki_target(
                source,
                link_target::wiki_link_target(nodes[places[k]].kind->WikiLink_0)->0,
            ),
    decreases n,
{
    if n == 0 {
        Seq::empty()
    } else {
        let old = law_wiki_links_are_listed(nodes, n - 1, source);
        lemma_ascending_push(old, n - 1);
        law_embed(nodes, n - 1);
        if let NodeKindView::Link(url) = nodes[n - 1].kind {
            law_external_url(url);
        }
        let before = link_parser::links_among(nodes, n - 1, source).wiki;
        let now = link_parser::links_among(nodes, n, source).wiki;
        let places = if wiki_link_at(nodes, n - 1, source) {
            old.push(n - 1)
        } else {
            old
        };
        assert forall|i: int| 0 <= i < n implies (#[trigger] wiki_link_at(nodes, i, source)
            <==> places.contains(i)) by {
            text::lemma_push_contains(old, n - 1, i);
            if i == n - 1 && old.contains(i) {
                let a = choose|a: int| 0 <= a < old.len() && old[a] == i;
                assert(old[a] < n - 1);
            }
        }
        assert forall|k: int| 0 <= k < places.len() implies Some(#[trigger] now[k])
            == link_path::wiki_target(
            source,
            link_target::wiki_link_target(nodes[places[k]].kind->WikiLink_0)->0,
        ) by {
            if k < old.len() {
                assert(now[k] == before[k]);
            }
        }
        places
    }
}

/// The notes that the Markdown links of a note lead to are listed in the order of the text, one for
/// each Markdown link that is followed.
pub proof fn law_markdown_links_are_listed(nodes: Seq<NodeView>, n: int, source: Seq<char>) -> (
places: Seq<int>)
    requires
        0 <= n <= nodes.len(),
    ensures
        ascending(places, n),
        forall|i: int|
            0 <= i < n ==> (#[trigger] markdown_link_at(nodes, i, source) <==> places.contains(i)),
        link_parser::links_among(nodes, n, source).markdown.len() == places.len(),
        forall|k: int|
            0 <= k < places.len() ==> Some(
                #[trigger] link_parser::links_among(nodes, n, source).markdown[k],
            ) == link_path::wiki_target(
                source,
                link_target::internal_markdown_target(nodes[places[k]].kind->Link_0)->0,
            ),
    decreases n,
{
    if n == 0 {
        Seq::empty()
    } else {
        let old = law_markdown_links_are_listed(nodes, n - 1, source);
        lemma_ascending_push(old, n - 1);
        if let NodeKindView::Link(url) = nodes[n - 1].kind {
            law_external_url(url);
        }
        let before = link_parser::links_among(nodes, n - 1, source).markdown;
        let now = link_parser::links_among(nodes, n, source).markdown;
        let places = if markdown_link_at(nodes, n - 1, source) {
            old.push(n - 1)
        } else {
            old
        };
        assert forall|i: int| 0 <= i < n implies (#[trigger] markdown_link_at(nodes, i, source)
            <==> places.contains(i)) by {
            text::lemma_push_contains(old, n - 1, i);
            if i == n - 1 && old.contains(i) {
                let a = choose|a: int| 0 <= a < old.len() && old[a] == i;
                assert(old[a] < n - 1);
            }
        }
        assert forall|k: int| 0 <= k < places.len() implies Some(#[trigger] now[k])
            == link_path::wiki_target(
            source,
            link_target::internal_markdown_target(nodes[places[k]].kind->Link_0)->0,
        ) by {
            if k < old.len() {
                assert(now[k] == before[k]);
            }
        }
        places
    }
}

/// The links of a note to the web are listed in the order of the text, each with its address and
/// with the text that it shows, or its address where it shows none.
pub proof fn law_web_links_are_listed(nodes: Seq<NodeView>, n: int, source: Seq<char>) -> (places:
    Seq<int>)
    requires
        0 <= n <= nodes.len(),
    ensures
        ascending(places, n),
        forall|i: int| 0 <= i < n ==> (#[trigger] web_link_at(nodes, i) <==> places.contains(i)),
        link_parser::links_among(nodes, n, source).external.len() == places.len(),
        forall|k: int|
            0 <= k < places.len() ==> (#[trigger] link_parser::links_among(
                nodes,
                n,
                source,
            ).external[k]).url == nodes[places[k]].kind->Link_0,
        forall|k: int|
            0 <= k < places.len() ==> (#[trigger] link_parser::links_among(
                nodes,
                n,
                source,
            ).external[k]).text == ({
                let shown = text::trim(
                    link_parser::text_below(nodes, nodes[places[k]].depth, places[k] + 1),
                );
                if shown.len() == 0 {
                    nodes[places[k]].kind->Link_0
                } else {
                    shown
                }
            }),
    decreases n,
{
    if n == 0 {
        Seq::empty()
    } else {
        let old = law_web_links_are_listed(nodes, n - 1, source);
        lemma_ascending_push(old, n - 1);
        if let NodeKindView::Link(url) = nodes[n - 1].kind {
            law_external_url(url);
        }
        let before = link_parser::links_among(nodes, n - 1, source).external;
        let now = link_parser::links_among(nodes, n, source).external;
        let places = if web_link_at(nodes, n - 1) {
            old.push(n - 1)
        } else {
            old
        };
        assert forall|i: int| 0 <= i < n implies (#[trigger] web_link_at(nodes, i)
            <==> places.contains(i)) by {
            text::lemma_push_contains(old, n - 1, i);
            if i == n - 1 && old.contains(i) {
                let a = choose|a: int| 0 <= a < old.len() && old[a] == i;
                assert(old[a] < n - 1);
            }
        }
        assert forall|k: int| 0 <= k < places.len() implies (#[trigger] now[k]).url
            == nodes[places[k]].kind->Link_0 && now[k].text == ({
            let shown = text::trim(
                link_parser::text_below(nodes, nodes[places[k]].depth, places[k] + 1),
            );
            if shown.len() == 0 {
                nodes[places[k]].kind->Link_0
            } else {
                shown
            }
        }) by {
            if k < old.len() {
                assert(now[k] == before[k]);
            }
        }
        places
    }
}

/// What a node shows by itself: text and code their content, a break a blank, and others nothing.
pub proof fn law_text_of_a_node(literal: Seq<char>)
    ensures
        link_parser::text_piece(NodeKindView::Text(literal)) == literal,
        link_parser::text_piece(NodeKindView::Code(literal)) == literal,
        link_parser::text_piece(NodeKindView::SoftBreak) == seq![' '],
        link_parser::text_piece(NodeKindView::LineBreak) == seq![' '],
        link_parser::text_piece(NodeKindView::Link(literal)) == Seq::<char>::empty(),
        link_parser::text_piece(NodeKindView::WikiLink(literal)) == Seq::<char>::empty(),
        link_parser::text_piece(NodeKindView::Other) == Seq::<char>::empty(),
{
}

/// The text inside a node is what the nodes inside it show, one after the other, up to the first
/// that does not lie inside it.
pub proof fn law_text_inside(nodes: Seq<NodeView>, depth: usize, from: int, count: int)
    requires
        0 <= from,
        0 <= count,
        from + count <= nodes.len(),
        forall|i: int| from <= i < from + count ==> (#[trigger] nodes[i]).depth > depth,
        from + count == nodes.len() || nodes[from + count].depth <= depth,
    ensures
        link_parser::text_below(nodes, depth, from) == Seq::new(
            count as nat,
            |i: int| link_parser::text_piece(nodes[from + i].kind),
        ).flatten(),
    decreases count,
{
    let pieces = Seq::new(
        count as nat,
        |i: int| link_parser::text_piece(nodes[from + i].kind),
    );
    if count > 0 {
        assert(nodes[from].depth > depth);
        law_text_inside(nodes, depth, from + 1, count - 1);
        assert(pieces.drop_first() =~= Seq::new(
            (count - 1) as nat,
            |i: int| link_parser::text_piece(nodes[from + 1 + i].kind),
        ));
    }
}

proof fn lemma_other_than(s: Seq<Seq<char>>, path: Seq<char>, k: Seq<char>)
    ensures
        link_parser::other_than(s, path).contains(k) <==> s.contains(k) && k != path,
    decreases s.len(),
{
    if s.len() > 0 {
        let front = s.drop_last();
        lemma_other_than(front, path, k);
        assert(s =~= front.push(s.last()));
        text::lemma_push_contains(front, s.last(), k);
        text::lemma_push_contains(link_parser::other_than(front, path), s.last(), k);
    }
}

/// A note is left out of a list of notes without changing the order of the others.
pub proof fn law_other_notes(s: Seq<Seq<char>>, path: Seq<char>)
    ensures
        link_parser::other_than(s, path) == s.filter(|k: Seq<char>| k != path),
    decreases s.len(),
{
    reveal(Seq::filter);
    if s.len() > 0 {
        law_other_notes(s.drop_last(), path);
    }
}

/// The notes that a note leads to are those of its Markdown links and then those of its wiki links.
pub proof fn law_internal_targets(links: LinksView)
    ensures
        link_parser::internal_targets(links).len() == links.markdown.len() + links.wiki.len(),
        forall|k: int|
            0 <= k < links.markdown.len() ==> #[trigger] link_parser::internal_targets(links)[k]
                == links.markdown[k],
        forall|k: int|
            0 <= k < links.wiki.len() ==> link_parser::internal_targets(links)[links.markdown.len()
                + k] == #[trigger] links.wiki[k],
{
}

/// Where a note leads: to each note that one of its links leads to, once, but not to itself.
pub proof fn law_outlinks(links: LinksView, source: Seq<char>)
    ensures
        ({
            let out = link_target::first_occurrences(
                link_parser::other_than(link_parser::internal_targets(links), source),
            );
            &&& out.no_duplicates()
            &&& forall|k: Seq<char>| #[trigger]
                out.contains(k) <==> (links.markdown.contains(k) || links.wiki.contains(k)) && k
                    != source
        }),
{
    let all = link_parser::internal_targets(links);
    let others = link_parser::other_than(all, source);
    let out = link_target::first_occurrences(others);
    rewrite_laws::law_dedupe_keeps_first_of_each(others);
    assert forall|k: Seq<char>| #[trigger] out.contains(k) <==> (links.markdown.contains(k)
        || links.wiki.contains(k)) && k != source by {
        lemma_other_than(all, source, k);
        if links.markdown.contains(k) {
            let i = choose|i: int| 0 <= i < links.markdown.len() && links.markdown[i] == k;
            assert(all[i] == k);
        }
        if links.wiki.contains(k) {
            let i = choose|i: int| 0 <= i < links.wiki.len() && links.wiki[i] == k;
            assert(all[links.markdown.len() + i] == k);
        }
        if all.contains(k) {
            let i = choose|i: int| 0 <= i < all.len() && all[i] == k;
            if i < links.markdown.len() {
                assert(links.markdown[i] == k);
            } else {
                assert(links.wiki[i - links.markdown.len()] == k);
            }
        }
    }
}

/// Whether the address of the link at place `i` does not occur before it.
pub open spec fn first_of_its_address(s: Seq<ExternalLinkView>, i: int) -> bool {
    forall|j: int| 0 <= j < i ==> (#[trigger] s[j]).url != s[i].url
}

/// Of links to the web with the same address the first is kept, with the text that it shows, and
/// those that are kept stay in order.
pub proof fn law_first_of_each_address(s: Seq<ExternalLinkView>) -> (places: Seq<int>)
    ensures
        ascending(places, s.len() as int),
        forall|i: int|
            0 <= i < s.len() ==> (#[trigger] first_of_its_address(s, i) <==> places.contains(i)),
        link_target::first_by_url(s).len() == places.len(),
        forall|k: int|
            0 <= k < places.len() ==> #[trigger] link_target::first_by_url(s)[k] == s[places[k]],
    decreases s.len(),
{
    if s.len() == 0 {
        Seq::empty()
    } else {
        let front = s.drop_last();
        let n = front.len() as int;
        let old = law_first_of_each_address(front);
        lemma_ascending_push(old, n);
        assert(link_target::has_url(front, s.last().url) <==> !first_of_its_address(s, n)) by {
            if link_target::has_url(front, s.last().url) {
                let j = choose|j: int| 0 <= j < n && (#[trigger] front[j]).url == s.last().url;
                assert(s[j].url == s[n].url);
            }
            if !first_of_its_address(s, n) {
                let j = choose|j: int| 0 <= j < n && (#[trigger] s[j]).url == s[n].url;
                assert(front[j].url == s.last().url);
            }
        }
        let places = if first_of_its_address(s, n) {
            old.push(n)
        } else {
            old
        };
        assert forall|i: int| 0 <= i < s.len() implies (#[trigger] first_of_its_address(s, i)
            <==> places.contains(i)) by {
            text::lemma_push_contains(old, n, i);
            if i < n {
                assert(first_of_its_address(s, i) <==> first_of_its_address(front, i)) by {
                    assert(s[i] == front[i]);
                    if first_of_its_address(s, i) {
                        assert forall|j: int| 0 <= j < i implies (#[trigger] front[j]).url
                            != front[i].url by {
                            assert(s[j] == front[j]);
                        }
                    }
                    if first_of_its_address(front, i) {
                        assert forall|j: int| 0 <= j < i implies (#[trigger] s[j]).url
                            != s[i].url by {
                            assert(s[j] == front[j]);
                        }
                    }
                }
            } else if old.contains(i) {
                let a = choose|a: int| 0 <= a < old.len() && old[a] == i;
                assert(old[a] < n);
            }
        }
        assert forall|k: int| 0 <= k < places.len() implies #[trigger] link_target::first_by_url(
            s,
        )[k] == s[places[k]] by {
            if k < old.len() {
                assert(link_target::first_by_url(front)[k] == front[old[k]]);
            }
        }
        places
    }
}

/// The links of a note are those among all nodes that its text has with the five extensions that
/// notes are written with.
pub proof fn law_links_of_a_note(content: Seq<char>, source: Seq<char>)
    ensures
        ({
            let nodes = markdown::comrak_nodes(content, (true, true, true, true, true));
            &&& markdown::note_nodes(content) == nodes
            &&& link_parser::note_links(content, source) == link_parser::links_among(
                nodes,
                nodes.len() as int,
                source,
            )
            &&& link_parser::all_links(nodes, source) == link_parser::note_links(content, source)
        }),
{
}

/// What is held of the nodes and of the links of a list is what each of them holds, in order.
pub proof fn law_link_views(
    nodes: Seq<MarkdownNode>,
    web: Seq<ExternalLink>,
    parsed: ParsedLinks,
    i: int,
)
    ensures
        markdown::node_views(nodes).len() == nodes.len(),
        link_target::external_views(web).len() == web.len(),
        0 <= i < nodes.len() ==> {
            let view = markdown::node_views(nodes)[i];
            &&& view.depth == nodes[i].depth
            &&& view.pos == nodes[i].pos
            &&& match nodes[i].kind {
                NodeKind::Link(url) => view.kind == NodeKindView::Link(url@),
                NodeKind::WikiLink(url) => view.kind == NodeKindView::WikiLink(url@),
                NodeKind::Text(literal) => view.kind == NodeKindView::Text(literal@),
                NodeKind::Code(literal) => view.kind == NodeKindView::Code(literal@),
                NodeKind::SoftBreak => view.kind == NodeKindView::SoftBreak,
                NodeKind::LineBreak => view.kind == NodeKindView::LineBreak,
                NodeKind::Other => view.kind == NodeKindView::Other,
            }
        },
        0 <= i < web.len() ==> link_target::external_views(web)[i].url == web[i].url@
            && link_target::external_views(web)[i].text == web[i].text@,
        parsed@.markdown == text::texts(parsed.markdown_targets@),
        parsed@.wiki == text::texts(parsed.wiki_targets@),
        parsed@.external == link_target::external_views(parsed.external_links@),
{
}

} // verus!
