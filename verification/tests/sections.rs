use strata::geometry::{BBox, Size};
use strata::model::{Block, BlockType, DocMeta, Document, Page, PageOrientation, Provenance};
use strata::sections::{build_tree, SectionChild};

fn b(v: f32) -> u32 {
    v.to_bits()
}

fn block(id: u128, content: &str, kind: BlockType) -> Block {
    Block {
        id,
        kind,
        bbox: BBox::new(b(0.0), b(0.0), b(10.0), b(10.0)).unwrap(),
        content: content.to_string(),
        children: vec![],
        metadata: None,
        provenance: Provenance::rust_native(),
    }
}

fn doc_from(blocks: Vec<Block>) -> Document {
    let reading_order = blocks.iter().map(|x| x.id).collect();
    let page = Page {
        number: 1,
        size: Size::new(b(595.0), b(842.0)).unwrap(),
        orientation: PageOrientation::Portrait,
        blocks,
        reading_order,
        media_box: BBox::new(b(0.0), b(0.0), b(595.0), b(842.0)).unwrap(),
    };
    Document {
        meta: DocMeta {
            source_sha256: "0".repeat(64),
            source_filename: "t.pdf".to_string(),
            schema_version: "0.1.0".to_string(),
            profile: "balanced".to_string(),
            extra: vec![],
        },
        pages: vec![page],
    }
}

#[test]
fn empty_document_yields_empty_root() {
    let doc = doc_from(vec![]);
    let tree = build_tree(&doc);
    assert!(tree.heading.is_none());
    assert_eq!(tree.level, 0);
    assert!(tree.children.is_empty());
}

#[test]
fn blocks_before_first_heading_attach_to_root() {
    let doc = doc_from(vec![
        block(1, "preamble", BlockType::Paragraph),
        block(2, "Section 1", BlockType::Heading { level: 1 }),
        block(3, "body", BlockType::Paragraph),
    ]);
    let tree = build_tree(&doc);
    assert_eq!(tree.children.len(), 2);
    assert!(matches!(tree.children[0], SectionChild::Block(_)));
    let sec = match &tree.children[1] {
        SectionChild::Section(s) => s,
        _ => panic!("expected section"),
    };
    assert_eq!(sec.title(), "Section 1");
    assert_eq!(sec.children.len(), 1);
}

#[test]
fn nested_headings_produce_nested_sections() {
    let doc = doc_from(vec![
        block(1, "H1", BlockType::Heading { level: 1 }),
        block(2, "p under h1", BlockType::Paragraph),
        block(3, "H2", BlockType::Heading { level: 2 }),
        block(4, "p under h2", BlockType::Paragraph),
        block(5, "H3", BlockType::Heading { level: 3 }),
        block(6, "p under h3", BlockType::Paragraph),
    ]);
    let tree = build_tree(&doc);
    assert_eq!(tree.children.len(), 1);
    let s1 = match &tree.children[0] {
        SectionChild::Section(s) => s,
        _ => panic!(),
    };
    assert_eq!(s1.title(), "H1");
    assert_eq!(s1.children.len(), 2);
    let s2 = match &s1.children[1] {
        SectionChild::Section(s) => s,
        _ => panic!(),
    };
    assert_eq!(s2.title(), "H2");
    let s3 = match &s2.children[1] {
        SectionChild::Section(s) => s,
        _ => panic!(),
    };
    assert_eq!(s3.title(), "H3");
    assert_eq!(tree.depth(), 3);
}

#[test]
fn sibling_h2_under_same_h1_closes_previous() {
    let doc = doc_from(vec![
        block(1, "H1", BlockType::Heading { level: 1 }),
        block(2, "H2_a", BlockType::Heading { level: 2 }),
        block(3, "H2_b", BlockType::Heading { level: 2 }),
    ]);
    let tree = build_tree(&doc);
    let s1 = match &tree.children[0] {
        SectionChild::Section(s) => s,
        _ => panic!(),
    };
    assert_eq!(s1.children.len(), 2);
    assert!(matches!(s1.children[0], SectionChild::Section(_)));
    assert!(matches!(s1.children[1], SectionChild::Section(_)));
}

#[test]
fn iter_blocks_visits_in_reading_order() {
    let doc = doc_from(vec![
        block(1, "H1", BlockType::Heading { level: 1 }),
        block(2, "p1", BlockType::Paragraph),
        block(3, "H2", BlockType::Heading { level: 2 }),
        block(4, "p2", BlockType::Paragraph),
        block(5, "p3", BlockType::Paragraph),
    ]);
    let tree = build_tree(&doc);
    let contents: Vec<String> = tree.iter_blocks().iter().map(|x| x.content.clone()).collect();
    assert_eq!(contents, vec!["p1", "p2", "p3"]);
}

#[test]
fn root_title_is_empty_and_unknown_ids_are_skipped() {
    let mut doc = doc_from(vec![block(1, "p", BlockType::Paragraph)]);
    doc.pages[0].reading_order.push(99);
    let tree = build_tree(&doc);
    assert_eq!(tree.title(), "");
    assert_eq!(tree.children.len(), 1);
    assert_eq!(tree.depth(), 0);
}

#[test]
fn a_lower_level_heading_closes_deeper_sections() {
    let doc = doc_from(vec![
        block(1, "A", BlockType::Heading { level: 2 }),
        block(2, "B", BlockType::Heading { level: 3 }),
        block(3, "C", BlockType::Heading { level: 1 }),
        block(4, "p", BlockType::Paragraph),
    ]);
    let tree = build_tree(&doc);
    assert_eq!(tree.children.len(), 2);
    assert_eq!(tree.depth(), 2);
    let c = match &tree.children[1] {
        SectionChild::Section(s) => s,
        _ => panic!(),
    };
    assert_eq!(c.title(), "C");
    assert_eq!(c.level, 1);
}
