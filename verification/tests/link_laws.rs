use otterly::byte_offset::{compute_line_starts, sourcepos_to_byte_range};
use otterly::link_parser::{
    extract_local_links_snapshot, internal_link_targets, links_of_nodes, parse_all_links,
};
use otterly::link_path::{
    compute_note_relative_path, compute_relative_path, ensure_md_extension,
    format_markdown_link_href, format_wiki_target, is_note_relative_target, resolve_relative_path,
    resolve_wiki_target, source_dir_from_path, strip_md_ext,
};
use otterly::link_rewrite::{
    plan_markdown_link, plan_wiki_link, replace_href, replace_wiki, rewrite_links, rewrite_nodes,
};
use otterly::link_target::{
    decode_percent_sequences, dedupe_external_links, dedupe_preserve_order,
    ends_with_unescaped_bang, hex_nibble, is_external_url,
    markdown_destination_needs_angle_brackets, parse_internal_markdown_target,
    parse_wiki_link_target, ExternalLink,
};
use otterly::markdown::{parse_markdown, MarkdownNode, NodeKind, SourcePos};
use otterly::string_map::StringMap;

fn strings(values: &[&str]) -> Vec<String> {
    values.iter().map(|v| v.to_string()).collect()
}

fn chars(value: &str) -> Vec<char> {
    value.chars().collect()
}

#[test]
fn relative_paths_climb_no_more_than_they_have_to() {
    assert_eq!(compute_relative_path("a/b/c", "a/x.md"), "../../x.md");
    assert_eq!(compute_relative_path("a/b", "a/b/c/x.md"), "./c/x.md");
    assert_eq!(compute_relative_path("a", "b/x.md"), "../b/x.md");
}

#[test]
fn relative_paths_lead_back() {
    for dir in ["", "docs", "docs/sub", "a/b/c"] {
        for to in ["note.md", "docs/note.md", "docs/sub/x/note.md", "a/b.md", "docs/sub"] {
            let relative = compute_relative_path(dir, to);
            assert_eq!(resolve_relative_path(dir, &relative), Some(to.to_string()));
        }
    }
}

#[test]
fn wiki_texts_lead_back() {
    for source in ["s.md", "docs/s.md", "a/b/s.md"] {
        for note in ["note.md", "docs/note.md", "a/b/c/d.md", "a/x.md"] {
            for relative in [false, true] {
                let written = format_wiki_target(source, note, relative);
                assert_eq!(resolve_wiki_target(source, &written), Some(note.to_string()));
            }
        }
    }
}

#[test]
fn wiki_texts_of_hidden_names_lead_back() {
    for note in ["a/.md", "a/..md", "..md", "a/b/...md"] {
        for source in ["s.md", "a/s.md", "d/s.md", "a/b/s.md"] {
            for relative in [false, true] {
                let written = format_wiki_target(source, note, relative);
                assert_eq!(resolve_wiki_target(source, &written), Some(note.to_string()));
            }
        }
    }
}

#[test]
fn note_without_a_name_leads_back_only_from_a_directory() {
    assert_eq!(format_wiki_target("s.md", ".md", false), "");
    assert_eq!(resolve_wiki_target("s.md", ""), None);
    let written = format_wiki_target("d/s.md", ".md", true);
    assert_eq!(written, "../");
    assert_eq!(resolve_wiki_target("d/s.md", &written), Some(".md".to_string()));
}

#[test]
fn plain_targets_are_read_as_they_stand() {
    for target in ["a/b.md", "100% sure?", "50%/x.md", "name"] {
        assert_eq!(parse_wiki_link_target(target), Some(target.to_string()));
    }
    for target in ["a/b.md", "50%/x.md"] {
        assert_eq!(parse_internal_markdown_target(target), Some(target.to_string()));
    }
}

#[test]
fn wiki_text_of_a_directory_on_the_way_does_not_lead_back() {
    let written = format_wiki_target("a/b/s.md", "a.md", true);
    assert_eq!(written, "./..");
    assert_eq!(resolve_wiki_target("a/b/s.md", &written), Some("a/b/...md".to_string()));
}

#[test]
fn bare_markdown_name_is_read_from_the_vault_root() {
    let href = format_markdown_link_href("docs/source.md", "docs/target.md");
    assert_eq!(href, "target.md");
    assert_eq!(resolve_wiki_target("docs/source.md", &href), Some("target.md".to_string()));
    assert_eq!(resolve_relative_path("docs", &href), Some("docs/target.md".to_string()));
}

#[test]
fn markdown_href_to_another_directory_is_read_back() {
    let href = format_markdown_link_href("docs/source.md", "other/target.md");
    assert_eq!(
        resolve_wiki_target("docs/source.md", &href),
        Some("other/target.md".to_string())
    );
}

#[test]
fn relative_resolution_skips_dots_and_empty_segments() {
    assert_eq!(resolve_relative_path("a", "./b//c/."), Some("a/b/c".to_string()));
    assert_eq!(resolve_relative_path("a", ".."), None);
    assert_eq!(resolve_relative_path("a", "../.."), None);
}

#[test]
fn source_directory_is_what_stands_before_the_last_slash() {
    assert_eq!(source_dir_from_path("a/b/c.md"), "a/b");
    assert_eq!(source_dir_from_path("c.md"), "");
}

#[test]
fn md_extension_is_added_and_taken_off_in_any_case() {
    assert_eq!(ensure_md_extension("note"), "note.md");
    assert_eq!(ensure_md_extension("note.MD"), "note.MD");
    assert_eq!(strip_md_ext("note.Md"), "note");
    assert_eq!(strip_md_ext("note.txt"), "note.txt");
}

#[test]
fn note_relative_targets_begin_with_dots() {
    assert!(is_note_relative_target("./a"));
    assert!(is_note_relative_target("../a"));
    assert!(!is_note_relative_target("a/../b"));
    assert_eq!(compute_note_relative_path("docs", "docs/a"), "./a");
    assert_eq!(compute_note_relative_path("docs", "a"), "../a");
}

#[test]
fn hex_digits_have_values() {
    assert_eq!(hex_nibble(b'0'), Some(0));
    assert_eq!(hex_nibble(b'9'), Some(9));
    assert_eq!(hex_nibble(b'a'), Some(10));
    assert_eq!(hex_nibble(b'F'), Some(15));
    assert_eq!(hex_nibble(b'g'), None);
}

#[test]
fn percent_escapes_are_decoded() {
    assert_eq!(decode_percent_sequences("a%20b"), "a b");
    assert_eq!(decode_percent_sequences("%C3%A4"), "\u{e4}");
    assert_eq!(decode_percent_sequences("50%"), "50%");
    assert_eq!(decode_percent_sequences("%zz%4"), "%zz%4");
    assert_eq!(decode_percent_sequences("%FF"), "\u{fffd}");
    assert_eq!(decode_percent_sequences("plain"), "plain");
}

#[test]
fn web_addresses_are_recognised_in_any_case() {
    assert!(is_external_url("https://example.com"));
    assert!(is_external_url("HTTP://example.com"));
    assert!(!is_external_url("ftp://example.com"));
    assert!(!is_external_url("note.md"));
}

#[test]
fn markdown_targets_lose_fragment_and_query() {
    assert_eq!(
        parse_internal_markdown_target(" docs/a%20b.md#top?x "),
        Some("docs/a b.md".to_string())
    );
    assert_eq!(parse_internal_markdown_target("a.md?x#y"), Some("a.md".to_string()));
    assert_eq!(parse_internal_markdown_target(""), None);
    assert_eq!(parse_internal_markdown_target("  "), None);
    assert_eq!(parse_internal_markdown_target("#top"), None);
    assert_eq!(parse_internal_markdown_target("image.png"), None);
    assert_eq!(parse_internal_markdown_target("https://example.com/a.md"), None);
}

#[test]
fn wiki_targets_lose_their_fragment() {
    assert_eq!(parse_wiki_link_target(" note #top "), Some("note".to_string()));
    assert_eq!(parse_wiki_link_target("a%20b"), Some("a b".to_string()));
    assert_eq!(parse_wiki_link_target("#top"), None);
    assert_eq!(parse_wiki_link_target("  "), None);
    assert_eq!(parse_wiki_link_target("https://example.com"), None);
}

#[test]
fn destinations_with_white_space_need_brackets() {
    assert!(markdown_destination_needs_angle_brackets("a b"));
    assert!(markdown_destination_needs_angle_brackets("a\u{3000}b"));
    assert!(!markdown_destination_needs_angle_brackets("ab"));
}

#[test]
fn bangs_can_be_escaped() {
    assert!(ends_with_unescaped_bang("see !"));
    assert!(!ends_with_unescaped_bang("see \\!"));
    assert!(ends_with_unescaped_bang("see \\\\!"));
    assert!(!ends_with_unescaped_bang("see"));
    assert!(!ends_with_unescaped_bang(""));
}

#[test]
fn first_of_each_value_is_kept() {
    assert_eq!(
        dedupe_preserve_order(strings(&["b", "a", "b", "c", "a"])),
        strings(&["b", "a", "c"])
    );
    let link = |url: &str, text: &str| ExternalLink {
        url: url.to_string(),
        text: text.to_string(),
    };
    assert_eq!(
        dedupe_external_links(vec![link("u", "one"), link("v", "two"), link("u", "three")]),
        vec![link("u", "one"), link("v", "two")]
    );
}

#[test]
fn links_of_a_note_are_sorted_by_kind() {
    let parsed = parse_all_links(
        "[a](a.md) [[b]] [web](https://example.com) <https://example.org> ![[c]] [x](x.png)",
        "s.md",
    );
    assert_eq!(parsed.markdown_targets, strings(&["a.md"]));
    assert_eq!(parsed.wiki_targets, strings(&["b.md"]));
    assert_eq!(parsed.external_links.len(), 2);
    assert_eq!(parsed.external_links[0].text, "web");
    assert_eq!(parsed.external_links[1].text, "https://example.org");
}

#[test]
fn text_of_a_link_is_plain() {
    let parsed = parse_all_links("[*bold* `code`\nmore](https://example.com)", "s.md");
    assert_eq!(parsed.external_links[0].text, "bold code more");
}

#[test]
fn escaped_bang_is_no_embed() {
    assert_eq!(internal_link_targets("\\\\![[a]]", "s.md"), Vec::<String>::new());
    assert_eq!(internal_link_targets("x [[a]]", "s.md"), strings(&["a.md"]));
}

#[test]
fn snapshot_leaves_out_the_note_itself() {
    let snapshot = extract_local_links_snapshot(
        "[[s]] [[a]] [a](a.md) [w](https://example.com) [v](https://example.com)",
        "s.md",
    );
    assert_eq!(snapshot.outlink_paths, strings(&["a.md"]));
    assert_eq!(snapshot.external_links.len(), 1);
    assert_eq!(snapshot.external_links[0].text, "w");
}

#[test]
fn nodes_can_be_given_by_hand() {
    let pos = SourcePos { start_line: 1, start_column: 1, end_line: 1, end_column: 7 };
    let node = |kind: NodeKind, depth: usize| MarkdownNode { depth, kind, pos };
    let nodes = vec![
        node(NodeKind::Other, 1),
        node(NodeKind::Text("see !".to_string()), 2),
        node(NodeKind::WikiLink("a".to_string()), 2),
        node(NodeKind::Text("a".to_string()), 3),
        node(NodeKind::WikiLink("b".to_string()), 2),
    ];
    let parsed = links_of_nodes(&nodes, "s.md");
    assert_eq!(parsed.wiki_targets, strings(&["b.md"]));
    assert!(parsed.markdown_targets.is_empty());
    assert!(parsed.external_links.is_empty());
}

#[test]
fn parsing_finds_nodes_and_their_places() {
    let nodes = parse_markdown("a [[b]]");
    let found: Vec<&MarkdownNode> =
        nodes.iter().filter(|n| matches!(n.kind, NodeKind::WikiLink(_))).collect();
    assert_eq!(found.len(), 1);
    assert_eq!(
        found[0].pos,
        SourcePos { start_line: 1, start_column: 3, end_line: 1, end_column: 7 }
    );
}

#[test]
fn places_become_byte_ranges() {
    let text = "ab\n\u{e4}c\n";
    let starts = compute_line_starts(text);
    assert_eq!(starts, vec![0, 3, 7]);
    let pos = |sl: usize, sc: usize, el: usize, ec: usize| SourcePos {
        start_line: sl,
        start_column: sc,
        end_line: el,
        end_column: ec,
    };
    assert_eq!(sourcepos_to_byte_range(&starts, pos(2, 1, 2, 3)), Some((3, 6)));
    assert_eq!(sourcepos_to_byte_range(&starts, pos(0, 1, 1, 1)), None);
    assert_eq!(sourcepos_to_byte_range(&starts, pos(1, 1, 4, 1)), None);
}

#[test]
fn span_of_a_link_gets_a_new_destination() {
    let new = |span: &str, href: &str| {
        replace_href(&chars(span), href).map(|v| v.into_iter().collect::<String>())
    };
    assert_eq!(new("[a](b.md)", "c.md"), Some("[a](c.md)".to_string()));
    assert_eq!(new("[a](<b.md>)", "c.md"), Some("[a](<c.md>)".to_string()));
    assert_eq!(new("[a](b.md)", "c d.md"), Some("[a](<c d.md>)".to_string()));
    assert_eq!(new("<b.md>", "c.md"), None);
    assert_eq!(new("[a][b]", "c.md"), None);
}

#[test]
fn span_of_a_wiki_link_keeps_its_label() {
    let new = |span: &str, target: &str| {
        replace_wiki(&chars(span), target).map(|v| v.into_iter().collect::<String>())
    };
    assert_eq!(new("[[a|label|x]]", "b"), Some("[[b|label|x]]".to_string()));
    assert_eq!(new("[[a]]", "b"), Some("[[b]]".to_string()));
    assert_eq!(new("[[]]", "b"), None);
    assert_eq!(new("[a]", "b"), None);
    let once = new("[[a|l]]", "b").unwrap();
    assert_eq!(new(&once, "c"), new("[[a|l]]", "c"));
}

#[test]
fn plans_follow_moved_notes() {
    let mut map = StringMap::new();
    map.insert("docs/old.md".to_string(), "docs/new.md".to_string());
    assert_eq!(
        plan_wiki_link("docs/old", "x/s.md", "x/s.md", &map),
        Some("docs/new".to_string())
    );
    assert_eq!(plan_wiki_link("docs/other", "x/s.md", "y/s.md", &map), None);
    assert_eq!(
        plan_markdown_link("./old.md", "docs/s.md", "docs/s.md", &map),
        Some("new.md".to_string())
    );
    assert_eq!(plan_markdown_link("https://example.com/old.md", "s.md", "t.md", &map), None);
    assert_eq!(plan_markdown_link("../../x.md", "s.md", "t.md", &map), None);
}

#[test]
fn edits_leave_the_rest_of_a_note_as_it_is() {
    let mut map = StringMap::new();
    map.insert("a.md".to_string(), "longer/name.md".to_string());
    map.insert("b.md".to_string(), "b2.md".to_string());
    let result = rewrite_links(
        "\u{e4}\u{f6} [[a]] \u{1f600} [x](b.md) [[a|l]] end\n",
        "s.md",
        "s.md",
        &map,
    );
    assert!(result.changed);
    assert_eq!(
        result.markdown,
        "\u{e4}\u{f6} [[longer/name]] \u{1f600} [x](b2.md) [[longer/name|l]] end\n"
    );
}

#[test]
fn nodes_outside_the_text_are_not_rewritten() {
    let mut map = StringMap::new();
    map.insert("a.md".to_string(), "b.md".to_string());
    let nodes = vec![MarkdownNode {
        depth: 1,
        kind: NodeKind::WikiLink("a".to_string()),
        pos: SourcePos { start_line: 1, start_column: 1, end_line: 1, end_column: 90 },
    }];
    let result = rewrite_nodes("[[a]]", &nodes, "s.md", "s.md", &map);
    assert!(!result.changed);
    assert_eq!(result.markdown, "[[a]]");
}

#[test]
fn rewritten_links_are_read_back() {
    let mut map = StringMap::new();
    map.insert("docs/a.md".to_string(), "archive/deep/a.md".to_string());
    let result = rewrite_links("[[./a]] [t](../docs/a.md)", "docs/s.md", "notes/x/s.md", &map);
    assert_eq!(
        internal_link_targets(&result.markdown, "notes/x/s.md"),
        strings(&["archive/deep/a.md", "archive/deep/a.md"])
    );
}
