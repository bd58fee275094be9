use std::collections::HashMap;
use strata::fuser::{apply_payload, merge, validate, FusionError, IaPayload};
use strata::geometry::{BBox, Size};
use strata::model::{Block, BlockType, DocMeta, Document, Page, PageOrientation, Provenance, ProvenanceSource};

fn b(v: f32) -> u32 {
    v.to_bits()
}

fn prov(source: ProvenanceSource, model: Option<&str>, conf: f32, latency: u32) -> Provenance {
    Provenance::try_new(source, model.map(|m| m.to_string()), b(conf), latency, 0).unwrap()
}

fn make_block(id: u128, content: &str, kind: BlockType) -> Block {
    Block {
        id,
        kind,
        bbox: BBox::new(b(0.0), b(0.0), b(10.0), b(10.0)).unwrap(),
        content: content.to_string(),
        children: vec![],
        metadata: None,
        provenance: prov(ProvenanceSource::Rust, None, 0.4, 0),
    }
}

fn make_doc(blocks: Vec<Block>) -> Document {
    let reading_order = blocks.iter().map(|x| x.id).collect();
    Document {
        meta: DocMeta {
            source_sha256: "0".repeat(64),
            source_filename: "test.pdf".to_string(),
            schema_version: "0.1.0".to_string(),
            profile: "balanced".to_string(),
            extra: vec![],
        },
        pages: vec![Page {
            number: 1,
            size: Size::new(b(595.0), b(842.0)).unwrap(),
            orientation: PageOrientation::Portrait,
            blocks,
            reading_order,
            media_box: BBox::new(b(0.0), b(0.0), b(595.0), b(842.0)).unwrap(),
        }],
    }
}

#[test]
fn merge_replaces_content_for_known_block() {
    let doc = make_doc(vec![make_block(1, "", BlockType::Table)]);
    let mut results = HashMap::new();
    results.insert(
        1u128,
        IaPayload::Table {
            gfm_markdown: "| a | b |\n|---|---|\n| 1 | 2 |".to_string(),
            provenance: prov(ProvenanceSource::Vlm, Some("qwen2.5vl:7b"), 0.92, 230),
        },
    );
    let fused = merge(&doc, &results);
    let new_block = &fused.pages[0].blocks[0];
    assert!(new_block.content.contains("| a | b |"));
    assert_eq!(new_block.provenance.source, ProvenanceSource::Vlm);
    assert_eq!(f32::from_bits(new_block.provenance.confidence), 0.92);
}

#[test]
fn merge_preserves_blocks_not_in_results() {
    let doc = make_doc(vec![
        make_block(1, "already-extracted", BlockType::Paragraph),
        make_block(2, "", BlockType::Table),
    ]);
    let mut results = HashMap::new();
    results.insert(
        2u128,
        IaPayload::Table {
            gfm_markdown: "table".to_string(),
            provenance: prov(ProvenanceSource::Vlm, None, 0.9, 10),
        },
    );
    let fused = merge(&doc, &results);
    assert_eq!(fused.pages[0].blocks[0].content, "already-extracted");
    assert_eq!(fused.pages[0].blocks[0].id, 1);
    assert_eq!(fused.pages[0].blocks[1].content, "table");
    assert_eq!(fused.pages[0].blocks[1].id, 2);
}

#[test]
fn merge_returns_new_blocks() {
    let doc = make_doc(vec![make_block(1, "", BlockType::Table)]);
    let mut results = HashMap::new();
    results.insert(
        1u128,
        IaPayload::Ocr { text: "hello".to_string(), provenance: prov(ProvenanceSource::Ocr, None, 0.85, 50) },
    );
    let fused = merge(&doc, &results);
    assert_eq!(doc.pages[0].blocks[0].content, "");
    assert_eq!(fused.pages[0].blocks[0].content, "hello");
    assert_eq!(fused.pages[0].blocks[0].kind, BlockType::Table);
}

#[test]
fn validate_fails_on_empty_text_block() {
    let doc = make_doc(vec![make_block(1, "", BlockType::Paragraph)]);
    let err = validate(&doc).unwrap_err();
    assert!(matches!(err, FusionError::EmptyContent { .. }));
}

#[test]
fn validate_allows_empty_figure_block() {
    let doc = make_doc(vec![make_block(1, "", BlockType::Figure)]);
    assert!(validate(&doc).is_ok());
}

#[test]
fn validate_reports_the_first_offender() {
    let doc = make_doc(vec![
        make_block(1, "ok", BlockType::Paragraph),
        make_block(2, " ", BlockType::Header),
        make_block(3, "\t", BlockType::Caption),
        make_block(4, "", BlockType::List),
    ]);
    assert_eq!(
        validate(&doc),
        Err(FusionError::EmptyContent { block_id: 3, kind: BlockType::Caption })
    );
}

#[test]
fn image_and_formula_payloads_set_type_and_metadata() {
    let blk = make_block(9, "", BlockType::Paragraph);
    let img = IaPayload::Image {
        caption: "cat".to_string(),
        long_description: "A cute cat on a chair.".to_string(),
        alt_text: "cat photo".to_string(),
        provenance: prov(ProvenanceSource::Vlm, None, 0.9, 100),
    };
    let out = apply_payload(&blk, &img);
    assert_eq!(out.kind, BlockType::Figure);
    assert_eq!(out.content, "cat");
    let meta = out.metadata.unwrap();
    assert_eq!(meta.alt_text.as_deref(), Some("cat photo"));
    assert_eq!(meta.description.as_deref(), Some("A cute cat on a chair."));
    let f = IaPayload::Formula {
        latex: "x^2".to_string(),
        mathml: Some("<math/>".to_string()),
        provenance: prov(ProvenanceSource::Vlm, None, 0.9, 1),
    };
    let out = apply_payload(&blk, &f);
    assert_eq!(out.kind, BlockType::Equation);
    assert_eq!(out.metadata.unwrap().mathml.as_deref(), Some("<math/>"));
    assert_eq!(f.content(), "x^2");
    assert_eq!(f.provenance().latency_ms, 1);
}

#[test]
fn merging_twice_equals_merging_once() {
    let doc = make_doc(vec![make_block(1, "", BlockType::Table), make_block(2, "x", BlockType::Paragraph)]);
    let mut results = HashMap::new();
    results.insert(
        1u128,
        IaPayload::Formula { latex: "y".to_string(), mathml: None, provenance: prov(ProvenanceSource::Vlm, None, 0.5, 3) },
    );
    let once = merge(&doc, &results);
    let twice = merge(&once, &results);
    assert_eq!(once, twice);
}

#[test]
fn finish_parse_without_payloads_keeps_native_document() {
    let doc = make_doc(vec![make_block(7, "Native text.", BlockType::Paragraph)]);
    let opts = strata::markdown::MarkdownOptions::default();
    let out = strata::pipeline::finish_parse(doc.clone(), &HashMap::new(), &opts);
    assert_eq!(out.document, doc);
    assert_eq!(out.markdown, strata::markdown::render(&doc, &opts));
    assert!(out.markdown.contains("Native text."));
    assert_eq!(out.graph.nodes.len(), 1);
    assert_eq!(out.graph.nodes[0].id, 7);
    assert!(out.media_paths.is_empty());
}

#[test]
fn finish_parse_fuses_payloads_before_rendering() {
    let doc = make_doc(vec![make_block(1, "", BlockType::Table)]);
    let mut results = HashMap::new();
    results.insert(
        1u128,
        IaPayload::Table {
            gfm_markdown: "| a | b |\n|---|---|\n| 1 | 2 |".to_string(),
            provenance: prov(ProvenanceSource::Vlm, Some("qwen2.5vl:7b"), 0.92, 230),
        },
    );
    let opts = strata::markdown::MarkdownOptions::default();
    let out = strata::pipeline::finish_parse(doc, &results, &opts);
    assert!(out.document.pages[0].blocks[0].content.contains("| a | b |"));
    assert!(out.markdown.contains("| 1 | 2 |"));
    assert_eq!(out.graph.nodes[0].content, out.document.pages[0].blocks[0].content);
    assert_eq!(out.graph.nodes[0].provenance.source, ProvenanceSource::Vlm);
}
