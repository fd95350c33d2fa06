use penumbra::markdown::ast::{BlockKind, Document, Inline};
use penumbra::markdown::custom::split_text_for_custom;
use penumbra::markdown::frontmatter::{frame_frontmatter, is_false, split_note_file};
use penumbra::markdown::links::{
    extract_inline_tags, extract_wikilinks, normalize_link_target, rewrite_wikilink_targets,
};
use penumbra::markdown::parser::{markdown_to_html, markdown_to_plain, parse_block, parse_document};
use penumbra::markdown::render::html::{render_html, sanitize};
use penumbra::markdown::render::markdown::{block_separator, render_markdown};
use penumbra::markdown::render::text::render_plain;

fn text(s: &str) -> Inline {
    Inline::Text(s.to_string())
}

#[test]
fn parses_heading_and_paragraph() {
    let doc = parse_document("# Title\n\nSome *text*.").unwrap();
    assert_eq!(doc.blocks.len(), 2);
    assert_eq!(
        doc.blocks[0].kind,
        BlockKind::Heading { level: 1, children: vec![text("Title")] }
    );
    assert_eq!(
        doc.blocks[1].kind,
        BlockKind::Paragraph(vec![text("Some "), Inline::Emphasis(vec![text("text")]), text(".")])
    );
}

#[test]
fn parses_empty_text_to_empty_document() {
    let doc = parse_document("").unwrap();
    assert!(doc.is_empty());
    assert!(Document::empty().is_empty());
}

#[test]
fn parses_fenced_code_with_language() {
    let blocks = parse_block("```rust\nfn main() {}\n```\n").unwrap();
    assert_eq!(blocks.len(), 1);
    assert_eq!(
        blocks[0].kind,
        BlockKind::CodeBlock { language: Some("rust".to_string()), text: "fn main() {}\n".to_string() }
    );
}

#[test]
fn parses_wikilinks_and_tags_in_text() {
    let doc = parse_document("See [[Other Note]] and #idea").unwrap();
    assert_eq!(
        doc.blocks[0].kind,
        BlockKind::Paragraph(vec![
            text("See "),
            Inline::NoteEmbed { note_ref: "Other Note".to_string() },
            text(" and "),
            Inline::TagRef { name: "idea".to_string() },
        ])
    );
}

#[test]
fn splits_custom_syntax() {
    let parts = split_text_for_custom("a [[b]] #c d");
    assert_eq!(
        parts,
        vec![
            text("a "),
            Inline::NoteEmbed { note_ref: "b".to_string() },
            text(" "),
            Inline::TagRef { name: "c".to_string() },
            text(" d"),
        ]
    );
}

#[test]
fn split_keeps_plain_text_whole() {
    assert_eq!(split_text_for_custom("no markers here"), vec![text("no markers here")]);
}

#[test]
fn hash_inside_word_is_not_a_tag() {
    assert_eq!(split_text_for_custom("a#b"), vec![text("a#b")]);
}

#[test]
fn plain_text_of_document() {
    let doc = parse_document("# Title\n\nbody **bold**").unwrap();
    assert_eq!(doc.plain_text(), "Title\nbody bold");
    assert_eq!(render_plain(&doc), doc.plain_text());
    assert_eq!(markdown_to_plain("# Title\n\nbody **bold**").unwrap(), "Title\nbody bold");
}

#[test]
fn html_of_heading_and_emphasis() {
    let html = markdown_to_html("# Hi\n\n*x*").unwrap();
    assert_eq!(html, "<h1>Hi</h1>\n<p><em>x</em></p>\n");
}

#[test]
fn html_escapes_text() {
    let doc = parse_document("a < b & c").unwrap();
    assert_eq!(render_html(&doc), "<p>a &lt; b &amp; c</p>\n");
}

#[test]
fn sanitize_removes_script() {
    let cleaned = sanitize("<p>ok</p><script>alert(1)</script>");
    assert_eq!(cleaned, "<p>ok</p>");
}

#[test]
fn sanitize_sets_rel_and_drops_handlers_and_styles() {
    let cleaned = sanitize(
        "<a href=\"https://example.com\" onclick=\"f()\" style=\"color:red\" rel=\"me\">x</a><style>p{}</style>",
    );
    assert!(cleaned.contains("href=\"https://example.com\""));
    assert!(cleaned.contains("rel=\"noopener noreferrer\""));
    assert!(!cleaned.contains("onclick"));
    assert!(!cleaned.contains("style"));
    assert!(!cleaned.contains("rel=\"me\""));
}

#[test]
fn sanitize_keeps_plain_text() {
    assert_eq!(sanitize("hello"), "hello");
}

#[test]
fn render_markdown_round_trips_simple_document() {
    let source = "# Title\n\nA paragraph.";
    let doc = parse_document(source).unwrap();
    assert_eq!(render_markdown(&doc), source);
    let with_newline = parse_document("# Title\n\nA paragraph.\n").unwrap();
    assert_eq!(render_markdown(&with_newline), source);
}

#[test]
fn render_markdown_keeps_wikilinks_and_tags() {
    let doc = parse_document("Link [[Target]] #tag\n").unwrap();
    assert_eq!(render_markdown(&doc), "Link [[Target]] #tag");
}

#[test]
fn separator_between_blocks() {
    let p = BlockKind::Paragraph(vec![text("a")]);
    let h = BlockKind::Heading { level: 2, children: vec![text("b")] };
    assert_eq!(block_separator(&p, &h), "\n\n");
}

#[test]
fn wikilinks_reduce_to_titles() {
    let doc = parse_document("[[A|alias]] [[B#section]] [[folder/C]] [[A]]").unwrap();
    assert_eq!(extract_wikilinks(&doc), vec!["A".to_string(), "B".to_string(), "C".to_string()]);
}

#[test]
fn inline_tags_dedupe_and_skip_numbers() {
    let doc = parse_document("#one #123 #two #one").unwrap();
    assert_eq!(extract_inline_tags(&doc), vec!["one".to_string(), "two".to_string()]);
}

#[test]
fn normalize_target_forms() {
    assert_eq!(normalize_link_target("Target|alias"), "Target");
    assert_eq!(normalize_link_target("Target#heading"), "Target");
    assert_eq!(normalize_link_target("a/b/Target"), "Target");
    assert_eq!(normalize_link_target("  spaced  "), "spaced");
    assert_eq!(normalize_link_target("Target"), "Target");
}

#[test]
fn rewrite_is_case_insensitive_and_keeps_alias() {
    let body = "See [[old note]] and [[Old Note|alias]].";
    assert_eq!(
        rewrite_wikilink_targets(body, "Old Note", "New Note"),
        "See [[New Note]] and [[New Note|alias]]."
    );
}

#[test]
fn rewrite_same_title_leaves_body() {
    let body = "See [[Same]].";
    assert_eq!(rewrite_wikilink_targets(body, "Same", "Same"), body);
}

#[test]
fn rewrite_skips_fenced_code() {
    let body = "```\n[[Old]]\n```\n[[Old]]";
    assert_eq!(rewrite_wikilink_targets(body, "Old", "New"), "```\n[[Old]]\n```\n[[New]]");
}

#[test]
fn rewrite_leaves_longer_titles_alone() {
    let body = "[[Older]] [[Old]]";
    assert_eq!(rewrite_wikilink_targets(body, "Old", "New"), "[[Older]] [[New]]");
}

#[test]
fn rewrite_keeps_text_around_links() {
    let body = "x [[Old]] y";
    assert_eq!(rewrite_wikilink_targets(body, "Old", "New"), "x [[New]] y");
}

#[test]
fn rewrite_handles_non_ascii_text() {
    assert_eq!(rewrite_wikilink_targets("café [[A]]", "A", "B"), "café [[B]]");
    assert_eq!(rewrite_wikilink_targets("Ärger [[Öl|x]] `[[Öl]]`", "öl", "Wasser"), "Ärger [[Wasser|x]] `[[Öl]]`");
}

#[test]
fn note_file_without_frontmatter_is_all_body() {
    let parts = split_note_file("just text\n").unwrap();
    assert_eq!(parts.yaml, None);
    assert_eq!(parts.body, "just text\n");
}

#[test]
fn note_file_with_frontmatter() {
    let parts = split_note_file("---\nid: 1\ntags: []\n---\nbody line\nsecond").unwrap();
    assert_eq!(parts.yaml, Some("id: 1\ntags: []".to_string()));
    assert_eq!(parts.body, "body line\nsecond\n");
}

#[test]
fn note_file_drops_byte_order_mark() {
    let parts = split_note_file("\u{feff}plain").unwrap();
    assert_eq!(parts.yaml, None);
    assert_eq!(parts.body, "plain");
}

#[test]
fn note_file_with_empty_body() {
    let parts = split_note_file("---\na: b\n---\n").unwrap();
    assert_eq!(parts.yaml, Some("a: b".to_string()));
    assert_eq!(parts.body, "");
}

#[test]
fn unterminated_frontmatter_is_an_error() {
    let r = split_note_file("---\nid: 1\nno closing fence");
    assert!(matches!(r, Err(penumbra::error::PenumbraError::Markdown(_))));
}

#[test]
fn frames_frontmatter() {
    assert_eq!(frame_frontmatter("id: 1\n"), "---\nid: 1\n---\n");
    assert!(is_false(&false));
    assert!(!is_false(&true));
}
