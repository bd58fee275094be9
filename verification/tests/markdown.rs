use strata::geometry::{BBox, Size};
use strata::markdown::{normalize_blank_lines, render, ImageStrategy, MarkdownOptions};
use strata::model::{Block, BlockType, DocMeta, Document, Page, PageOrientation, Provenance};

fn b(v: f32) -> u32 {
    v.to_bits()
}

fn block(id: u128, content: &str, kind: BlockType) -> Block {
    Block {
        id,
        kind,
        bbox: BBox::new(b(0.0), b(0.0), b(10.0), b(10.0)).unwrap(),
        content: content.to_string(),
        children: vec![],
        metadata: None,
        provenance: Provenance::rust_native(),
    }
}

fn doc(blocks: Vec<Block>) -> Document {
    let reading_order = blocks.iter().map(|x| x.id).collect();
    Document {
        meta: DocMeta {
            source_sha256: "0".repeat(64),
            source_filename: "t.pdf".to_string(),
            schema_version: "0.1.0".to_string(),
            profile: "balanced".to_string(),
            extra: vec![],
        },
        pages: vec![Page {
            number: 1,
            size: Size::new(b(595.0), b(842.0)).unwrap(),
            orientation: PageOrientation::Portrait,
            blocks,
            reading_order,
            media_box: BBox::new(b(0.0), b(0.0), b(595.0), b(842.0)).unwrap(),
        }],
    }
}

#[test]
fn empty_document_renders_to_empty_string() {
    let md = render(&doc(vec![]), &MarkdownOptions::default());
    assert_eq!(md, "");
}

#[test]
fn heading_renders_with_correct_pound_count() {
    let d = doc(vec![
        block(1, "Title", BlockType::Heading { level: 1 }),
        block(2, "Subsection", BlockType::Heading { level: 2 }),
        block(3, "Body", BlockType::Paragraph),
    ]);
    let md = render(&d, &MarkdownOptions::default());
    assert!(md.starts_with("# Title\n\n"), "got: {md}");
    assert!(md.contains("\n## Subsection\n\n"), "got: {md}");
    assert!(md.contains("\nBody\n"), "got: {md}");
}

#[test]
fn list_block_emits_dash_items() {
    let d = doc(vec![block(1, "first item\nsecond item\nthird item", BlockType::List)]);
    let md = render(&d, &MarkdownOptions::default());
    assert!(md.contains("- first item"));
    assert!(md.contains("- second item"));
    assert!(md.contains("- third item"));
}

#[test]
fn list_keeps_existing_bullets_and_drops_blank_lines() {
    let d = doc(vec![block(1, "* a\n\n  - b  \nc", BlockType::List)]);
    let md = render(&d, &MarkdownOptions::default());
    assert_eq!(md, "* a\n- b\n- c\n");
}

#[test]
fn equation_uses_display_math_by_default() {
    let d = doc(vec![block(1, r"\int_0^1 x\,dx = \frac{1}{2}", BlockType::Equation)]);
    let md = render(&d, &MarkdownOptions::default());
    assert!(md.contains("$$"), "expected display math: {md}");
    assert!(md.contains(r"\int_0^1"));
}

#[test]
fn equation_uses_inline_math_when_short_and_threshold_set() {
    let d = doc(vec![block(1, "E = mc^2", BlockType::Equation)]);
    let opts = MarkdownOptions { inline_math_threshold: 5, ..MarkdownOptions::default() };
    let md = render(&d, &opts);
    assert!(md.contains("$E = mc^2$"), "got: {md}");
}

#[test]
fn header_footer_pagenumber_are_skipped() {
    let d = doc(vec![
        block(1, "page 1", BlockType::PageNumber),
        block(2, "My Paper", BlockType::Header),
        block(3, "footer text", BlockType::Footer),
        block(4, "body", BlockType::Paragraph),
    ]);
    let md = render(&d, &MarkdownOptions::default());
    assert!(!md.contains("page 1"));
    assert!(!md.contains("My Paper"));
    assert!(!md.contains("footer text"));
    assert!(md.contains("body"));
}

#[test]
fn references_render_at_end_when_enabled() {
    let d = doc(vec![
        block(1, "body", BlockType::Paragraph),
        block(2, "Smith et al., 2024. *Foo*. JoF.", BlockType::Reference),
        block(3, "Doe & Roe, 2025. *Bar*. JoB.", BlockType::Reference),
    ]);
    let md = render(&d, &MarkdownOptions::default());
    assert!(md.contains("## References"), "got: {md}");
    assert!(md.contains("1. Smith"));
    assert!(md.contains("2. Doe"));
}

#[test]
fn reference_list_can_be_disabled() {
    let d = doc(vec![block(1, "Smith 2024", BlockType::Reference)]);
    let opts = MarkdownOptions { append_reference_list: false, ..MarkdownOptions::default() };
    assert_eq!(render(&d, &opts), "Smith 2024\n");
}

#[test]
fn no_more_than_two_consecutive_blank_lines() {
    let d = doc(vec![
        block(1, "p1", BlockType::Paragraph),
        block(2, "p2", BlockType::Paragraph),
        block(3, "p3", BlockType::Paragraph),
    ]);
    let md = render(&d, &MarkdownOptions::default());
    assert!(!md.contains("\n\n\n"), "got: {md:?}");
    assert_eq!(md, "p1\n\np2\n\np3\n");
}

#[test]
fn render_is_deterministic() {
    let d = doc(vec![
        block(1, "Title", BlockType::Heading { level: 1 }),
        block(2, "body", BlockType::Paragraph),
    ]);
    let a = render(&d, &MarkdownOptions::default());
    let c = render(&d, &MarkdownOptions::default());
    assert_eq!(a, c);
}

#[test]
fn figures_follow_the_image_strategy() {
    let d = doc(vec![block(0x1234, "  ", BlockType::Figure)]);
    assert_eq!(render(&d, &MarkdownOptions::default()), "_figure: figure_\n");
    let opts = MarkdownOptions { image_strategy: ImageStrategy::DataUrl, ..MarkdownOptions::default() };
    assert_eq!(render(&d, &opts), "![figure](data:image/png;base64,...)\n");
    let opts = MarkdownOptions {
        image_strategy: ImageStrategy::MediaDir { dir: "media".to_string() },
        ..MarkdownOptions::default()
    };
    assert_eq!(
        render(&d, &opts),
        "![figure](media/00000000-0000-0000-0000-000000001234.png)\n"
    );
}

#[test]
fn code_tables_and_footnotes() {
    let d = doc(vec![
        block(1, "fn main() {}\n\n", BlockType::CodeListing),
        block(2, "| a |\n|---|\n", BlockType::Table),
        block(3, " note ", BlockType::Footnote),
    ]);
    let md = render(&d, &MarkdownOptions::default());
    assert_eq!(md, "```\nfn main() {}\n```\n\n| a |\n|---|\n\n> note\n");
}

#[test]
fn heading_levels_are_clamped() {
    let d = doc(vec![block(1, "Deep", BlockType::Heading { level: 9 })]);
    assert_eq!(render(&d, &MarkdownOptions::default()), "###### Deep\n");
}

#[test]
fn normalize_blank_lines_caps_runs() {
    assert_eq!(normalize_blank_lines("a\n\n\n\nb"), "a\n\nb\n");
    assert_eq!(normalize_blank_lines("a\n\n"), "a\n");
    assert_eq!(normalize_blank_lines("\n\n\n"), "\n");
    assert_eq!(normalize_blank_lines("x"), "x\n");
    assert_eq!(normalize_blank_lines(""), "");
}
