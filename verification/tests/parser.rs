use dendrite_core::frontmatter::get_updated_field_range;
use dendrite_core::model::{LinkKind, Point, TextRange, WikiLinkFormat};
use dendrite_core::parser::parse_markdown;

fn default_kinds() -> Vec<LinkKind> {
    vec![
        LinkKind::WikiLink(WikiLinkFormat::AliasFirst),
        LinkKind::EmbeddedWikiLink(WikiLinkFormat::AliasFirst),
        LinkKind::MarkdownLink,
    ]
}

#[test]
fn test_parse_frontmatter() {
    let content = "---\ntitle: My Note\nid: 123\n---\n# Content";
    let result = parse_markdown(content, &default_kinds());

    assert_eq!(result.title, Some("My Note".to_string()));
    assert!(result.frontmatter.is_some());
    let fm: serde_json::Value = serde_json::from_str(&result.frontmatter.unwrap()).unwrap();
    assert_eq!(fm["title"], "My Note");
    assert_eq!(fm["id"], 123);
}

#[test]
fn test_parse_digest() {
    let result1 = parse_markdown("Content A", &default_kinds());
    let result2 = parse_markdown("Content A", &default_kinds());
    let result3 = parse_markdown("Content B", &default_kinds());

    assert_eq!(result1.digest, result2.digest);
    assert_ne!(result1.digest, result3.digest);
    assert_eq!(result1.digest.len(), 64);
}

#[test]
fn test_parse_wiki_link() {
    let result = parse_markdown("# Note 1\n\n[[note2]]", &default_kinds());

    assert_eq!(result.links.len(), 1, "Should parse one wiki link");
    assert_eq!(result.links[0].target, "note2");
    assert!(matches!(result.links[0].kind, LinkKind::WikiLink { .. }));
}

#[test]
fn test_parse_multiple_links() {
    let result = parse_markdown("# Note 1\n\n[[note2]] and [[note3]]", &default_kinds());

    assert_eq!(result.links.len(), 2, "Should parse two wiki links");
    assert_eq!(result.links[0].target, "note2");
    assert_eq!(result.links[1].target, "note3");
}

#[test]
fn test_parse_wiki_link_with_alias() {
    let result = parse_markdown("[[My Alias | note2]]", &default_kinds());

    assert_eq!(result.links.len(), 1);
    assert_eq!(result.links[0].target, "note2");
    assert_eq!(result.links[0].alias, Some("My Alias".to_string()));
}

#[test]
fn test_parse_wiki_link_with_anchor() {
    let result = parse_markdown("[[note2#section-1]]", &default_kinds());

    assert_eq!(result.links.len(), 1);
    assert_eq!(result.links[0].target, "note2");
    assert_eq!(result.links[0].anchor, Some("section-1".to_string()));
    assert_eq!(result.links[0].alias, None);
}

#[test]
fn test_parse_embedded_wiki_link() {
    let result = parse_markdown("![[image.png]]", &default_kinds());

    assert_eq!(result.links.len(), 1);
    assert_eq!(result.links[0].target, "image.png");
    assert!(matches!(result.links[0].kind, LinkKind::EmbeddedWikiLink { .. }));
}

#[test]
fn test_parse_embedded_wiki_link_with_alias_and_anchor() {
    let result = parse_markdown("![[alias | a.link.to.note#with-anchor]]", &default_kinds());

    assert_eq!(result.links.len(), 1);
    assert_eq!(result.links[0].target, "a.link.to.note");
    assert_eq!(result.links[0].anchor, Some("with-anchor".to_string()));
    assert_eq!(result.links[0].alias, Some("alias".to_string()));
    assert!(matches!(result.links[0].kind, LinkKind::EmbeddedWikiLink { .. }));
}

#[test]
fn test_parse_wiki_link_with_spaces_and_range() {
    let result = parse_markdown("[[alias | target]]", &default_kinds());

    assert_eq!(result.links.len(), 1);
    assert_eq!(result.links[0].target, "target");
    assert_eq!(result.links[0].alias, Some("alias".to_string()));
    assert_eq!(result.links[0].range.start.col, 0);
    assert_eq!(result.links[0].range.end.col, 18);
}

#[test]
fn test_parse_embedded_wiki_link_range() {
    let result = parse_markdown("![[image.png]]", &default_kinds());

    assert_eq!(result.links.len(), 1);
    assert_eq!(result.links[0].range.start.col, 0);
    assert_eq!(result.links[0].range.end.col, 14);
}

#[test]
fn test_parse_wiki_link_with_alias_and_anchor() {
    let result = parse_markdown("[[My Alias|note2#section-1]]", &default_kinds());

    assert_eq!(result.links.len(), 1);
    assert_eq!(result.links[0].target, "note2");
    assert_eq!(result.links[0].anchor, Some("section-1".to_string()));
    assert_eq!(result.links[0].alias, Some("My Alias".to_string()));
}

#[test]
fn test_parse_headings() {
    let result = parse_markdown("# Title\n\n## Section", &default_kinds());

    assert_eq!(result.headings[1].text, "Section");
    assert_eq!(result.title, Some("Title".to_string()));
}

#[test]
fn test_issue_6_alias_and_trailing_text() {
    let result = parse_markdown("  - 和[[Alias|a.b.c]]类似。", &default_kinds());
    assert_eq!(result.links.len(), 1);
    let link = &result.links[0];
    assert_eq!(link.alias, Some("Alias".to_string()));
    assert_eq!(link.target, "a.b.c");
    assert_eq!(link.range.start.col, 5);
    assert_eq!(link.range.end.col, 20);
}

#[test]
fn test_issue_5_embedded_image_link() {
    let result = parse_markdown("同时参考，![[a.b.c.d.e]]", &default_kinds());
    assert_eq!(result.links.len(), 1);
    let link = &result.links[0];
    assert!(matches!(link.kind, LinkKind::EmbeddedWikiLink { .. }));
    assert_eq!(link.target, "a.b.c.d.e");
    assert_eq!(link.range.start.col, 5);
    assert_eq!(link.range.end.col, 19);
}

#[test]
fn test_parse_wiki_link_with_anchor_range() {
    let result = parse_markdown("Check [[target#section-1]] highlight", &default_kinds());
    assert_eq!(result.links.len(), 1);
    let link = &result.links[0];
    assert_eq!(link.target, "target");
    assert_eq!(link.anchor, Some("section-1".to_string()));
    assert_eq!(link.range.start.col, 6);
    assert_eq!(link.range.end.col, 26);
}

#[test]
fn test_parse_wiki_link_with_block_id_range() {
    let result = parse_markdown("See [[target#^block-id]] for details", &default_kinds());
    assert_eq!(result.links.len(), 1);
    let link = &result.links[0];
    assert_eq!(link.target, "target");
    assert_eq!(link.anchor, Some("^block-id".to_string()));
    assert_eq!(link.range.start.col, 4);
    assert_eq!(link.range.end.col, 24);
}

#[test]
fn test_content_offset_calculation() {
    let result_fm =
        parse_markdown("---\ntitle: Hello\n---\nActual content starts here.", &default_kinds());
    assert_eq!(result_fm.content_start_offset, 20);

    let result_no_fm = parse_markdown("No frontmatter here.", &default_kinds());
    assert_eq!(result_no_fm.content_start_offset, 0);
}

#[test]
fn test_parse_markdown_link() {
    let result = parse_markdown("Check [My Alias](note2.md) link", &default_kinds());

    assert_eq!(result.links.len(), 1);
    let link = &result.links[0];
    assert_eq!(link.target, "note2.md");
    assert_eq!(link.alias, Some("My Alias".to_string()));
    assert!(matches!(link.kind, LinkKind::MarkdownLink));
    assert_eq!(link.range.start.col, 6);
    assert_eq!(link.range.end.col, 26);
}

#[test]
fn test_parse_markdown_link_with_anchor() {
    let result = parse_markdown("[Target](note.md#section-1)", &default_kinds());

    assert_eq!(result.links.len(), 1);
    let link = &result.links[0];
    assert_eq!(link.target, "note.md");
    assert_eq!(link.anchor, Some("section-1".to_string()));
}

#[test]
fn test_parse_markdown_image() {
    let mut kinds = default_kinds();
    kinds.push(LinkKind::MarkdownImage);

    let result = parse_markdown("![Alt Text](image.png)", &kinds);

    assert_eq!(result.links.len(), 1);
    let link = &result.links[0];
    assert_eq!(link.target, "image.png");
    assert!(matches!(link.kind, LinkKind::MarkdownImage));
    assert_eq!(link.alias, Some("Alt Text".to_string()));
}

#[test]
fn wiki_links_are_ignored_when_no_wiki_kind_is_supported() {
    let result = parse_markdown("[[note2]]", &[LinkKind::MarkdownLink]);
    assert!(result.links.iter().all(|l| !matches!(l.kind, LinkKind::WikiLink(_))));
}

#[test]
fn block_ids_are_read() {
    let result = parse_markdown("A paragraph ^block-1\n", &default_kinds());
    assert_eq!(result.blocks.len(), 1);
    assert_eq!(result.blocks[0].id, "block-1");
}

#[test]
fn updated_field_range_is_the_trimmed_value() {
    let text = "---\ntitle: T\nupdated: 1700000000\n---\nbody";
    let r = get_updated_field_range(text, 200).expect("field found");
    assert_eq!(
        r,
        TextRange { start: Point { line: 2, col: 9 }, end: Point { line: 2, col: 19 } }
    );
}

#[test]
fn updated_field_range_respects_the_limit() {
    let text = "---\ntitle: T\nupdated: 1\n---\n";
    assert_eq!(get_updated_field_range(text, 5), None);
    assert_eq!(get_updated_field_range("no field here", 100), None);
}

#[test]
fn updated_field_with_a_blank_value_covers_the_blanks_after_the_key() {
    let text = "updated:   \nx";
    let r = get_updated_field_range(text, 100).expect("field found");
    assert_eq!(r, TextRange { start: Point { line: 0, col: 8 }, end: Point { line: 0, col: 11 } });
}

#[test]
fn an_empty_updated_value_is_the_rest_after_the_key() {
    let r = get_updated_field_range("updated: ", 100).expect("field found");
    assert_eq!(r.start, Point { line: 0, col: 8 });
    assert_eq!(r.end, Point { line: 0, col: 9 });
}

#[test]
fn the_updated_value_is_found_after_the_key() {
    let r = get_updated_field_range("updated: u", 100).expect("field found");
    assert_eq!(r.start, Point { line: 0, col: 9 });
    assert_eq!(r.end, Point { line: 0, col: 10 });
}
