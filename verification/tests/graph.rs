use strata::geometry::{BBox, Size};
use strata::graph::{block_type_kebab, render, tags_for, EdgeRelation};
use strata::model::{Block, BlockType, DocMeta, Document, Page, PageOrientation, Provenance};

fn b(v: f32) -> u32 {
    v.to_bits()
}

fn block(id: u128, content: &str, kind: BlockType) -> Block {
    Block {
        id,
        kind,
        bbox: BBox::new(b(0.0), b(0.0), b(10.0), b(10.0)).unwrap(),
        content: content.to_string(),
        children: vec![],
        metadata: None,
        provenance: Provenance::rust_native(),
    }
}

fn doc(blocks: Vec<Block>) -> Document {
    let reading_order = blocks.iter().map(|x| x.id).collect();
    Document {
        meta: DocMeta {
            source_sha256: "0".repeat(64),
            source_filename: "t.pdf".to_string(),
            schema_version: "0.1.0".to_string(),
            profile: "balanced".to_string(),
            extra: vec![],
        },
        pages: vec![Page {
            number: 1,
            size: Size::new(b(595.0), b(842.0)).unwrap(),
            orientation: PageOrientation::Portrait,
            blocks,
            reading_order,
            media_box: BBox::new(b(0.0), b(0.0), b(595.0), b(842.0)).unwrap(),
        }],
    }
}

#[test]
fn empty_document_yields_empty_graph() {
    let g = render(&doc(vec![]));
    assert!(g.nodes.is_empty());
    assert!(g.edges.is_empty());
}

#[test]
fn each_block_becomes_one_node() {
    let g = render(&doc(vec![
        block(1, "H1", BlockType::Heading { level: 1 }),
        block(2, "body", BlockType::Paragraph),
    ]));
    assert_eq!(g.nodes.len(), 2);
    let types: Vec<&str> = g.nodes.iter().map(|n| n.node_type.as_str()).collect();
    assert!(types.contains(&"heading-1"));
    assert!(types.contains(&"paragraph"));
    assert!(g.nodes.iter().all(|n| n.page == 1));
}

#[test]
fn section_emits_contains_edges() {
    let g = render(&doc(vec![
        block(1, "H1", BlockType::Heading { level: 1 }),
        block(2, "body", BlockType::Paragraph),
    ]));
    assert!(g.edges.iter().any(|e| e.from == 1 && e.to == 2 && e.relation == EdgeRelation::Contains));
}

#[test]
fn follows_edges_chain_in_reading_order() {
    let g = render(&doc(vec![
        block(1, "H1", BlockType::Heading { level: 1 }),
        block(2, "p1", BlockType::Paragraph),
        block(3, "p2", BlockType::Paragraph),
        block(4, "p3", BlockType::Paragraph),
    ]));
    assert!(g.edges.iter().any(|e| e.from == 2 && e.to == 3 && e.relation == EdgeRelation::Follows));
    assert!(g.edges.iter().any(|e| e.from == 3 && e.to == 4 && e.relation == EdgeRelation::Follows));
}

#[test]
fn figure_caption_pair_emits_caption_of_edge() {
    let g = render(&doc(vec![
        block(1, "", BlockType::Figure),
        block(2, "Fig 1: arch overview", BlockType::Caption),
    ]));
    assert!(g.edges.iter().any(|e| e.from == 1 && e.to == 2 && e.relation == EdgeRelation::CaptionOf));
}

#[test]
fn caption_before_figure_still_points_from_figure() {
    let g = render(&doc(vec![
        block(1, "Fig 1", BlockType::Caption),
        block(2, "", BlockType::Figure),
    ]));
    assert!(g.edges.iter().any(|e| e.from == 2 && e.to == 1 && e.relation == EdgeRelation::CaptionOf));
}

#[test]
fn heading_node_carries_section_tag() {
    let g = render(&doc(vec![block(1, "H1", BlockType::Heading { level: 1 })]));
    assert_eq!(g.nodes.len(), 1);
    assert!(g.nodes[0].tags.contains(&"section".to_string()));
    assert_eq!(g.nodes[0].tags.len(), 1);
}

#[test]
fn figure_node_carries_figure_tag() {
    let g = render(&doc(vec![block(1, "", BlockType::Figure)]));
    assert_eq!(g.nodes.len(), 1);
    assert!(g.nodes[0].tags.contains(&"figure".to_string()));
}

#[test]
fn kebab_names_and_tags() {
    assert_eq!(block_type_kebab(&BlockType::Heading { level: 12 }), "heading-12");
    assert_eq!(block_type_kebab(&BlockType::CodeListing), "code-listing");
    assert_eq!(block_type_kebab(&BlockType::PageNumber), "page-number");
    assert_eq!(tags_for(&block(1, "", BlockType::Reference)), vec!["citation".to_string()]);
    assert!(tags_for(&block(1, "", BlockType::Paragraph)).is_empty());
}

#[test]
fn nodes_follow_reading_order_across_sections() {
    let g = render(&doc(vec![
        block(5, "intro", BlockType::Paragraph),
        block(6, "A", BlockType::Heading { level: 1 }),
        block(7, "a1", BlockType::Paragraph),
        block(8, "B", BlockType::Heading { level: 2 }),
        block(9, "b1", BlockType::Paragraph),
    ]));
    let ids: Vec<u128> = g.nodes.iter().map(|n| n.id).collect();
    assert_eq!(ids, vec![5, 6, 7, 8, 9]);
    assert!(g.edges.iter().any(|e| e.from == 6 && e.to == 8 && e.relation == EdgeRelation::Contains));
    assert!(g.edges.iter().any(|e| e.from == 7 && e.to == 8 && e.relation == EdgeRelation::Follows));
    assert_eq!(g.meta.profile, "balanced");
}
