use std::collections::HashMap;
use strata::digest::{hex_string, sha256_hex};
use strata::fuser::IaPayload;
use strata::geometry::{BBox, Point};
use strata::model::ProvenanceSource;
use strata::pipeline::{
    absorb_result, build_provenance, correlation_id, formula_to_payload, image_to_payload, is_math_symbol,
    ocr_to_payload, paths_to_line_segments, resolve_profile, rows_to_gfm, table_to_payload, FormulaResponse,
    FormulaResult, ImageResponse, ImageResult, LineSegment, OcrResponse, OcrResult, ParsePipelineOptions,
    ProfileName, ResponseProvenance, Segment, StreamPayload, StreamResult, TableCell, TableResponse, TableResult,
    TableRow, VectorPath,
};

fn rp(backend: &str, retries: u32) -> ResponseProvenance {
    ResponseProvenance {
        model_id: "m".to_string(),
        backend: backend.to_string(),
        latency_ms: 12,
        retries,
    }
}

fn row(cells: &[&str]) -> TableRow {
    TableRow { cells: cells.iter().map(|c| TableCell { text: c.to_string() }).collect() }
}

fn pt(x: f32, y: f32) -> Point {
    Point { x: x.to_bits(), y: y.to_bits() }
}

#[test]
fn provenance_source_depends_on_backend() {
    assert_eq!(build_provenance(&rp("surya", 0)).source, ProvenanceSource::Ocr);
    assert_eq!(build_provenance(&rp("tesseract", 0)).source, ProvenanceSource::Ocr);
    assert_eq!(build_provenance(&rp("ollama", 0)).source, ProvenanceSource::Vlm);
    let p = build_provenance(&rp("ocr", 1000));
    assert_eq!(p.retries, 255);
    assert_eq!(f32::from_bits(p.confidence), 0.9);
    assert_eq!(p.model.as_deref(), Some("m"));
    assert_eq!(p.latency_ms, 12);
}

#[test]
fn ocr_mapping() {
    let resp = OcrResponse { result: Some(OcrResult { text: "hi".to_string() }), provenance: Some(rp("ocr", 0)) };
    assert!(matches!(ocr_to_payload(&resp), Some(IaPayload::Ocr { ref text, .. }) if text == "hi"));
    let blank = OcrResponse { result: Some(OcrResult { text: "  ".to_string() }), provenance: Some(rp("ocr", 0)) };
    assert!(ocr_to_payload(&blank).is_none());
    let no_prov = OcrResponse { result: Some(OcrResult { text: "hi".to_string() }), provenance: None };
    assert!(ocr_to_payload(&no_prov).is_none());
}

#[test]
fn gfm_table_rendering() {
    assert_eq!(rows_to_gfm(&vec![]), "");
    let rows = vec![row(&["a", "b|c"]), row(&["1", "2\n3"])];
    assert_eq!(rows_to_gfm(&rows), "| a | b\\|c |\n| --- | --- |\n| 1 | 2 3 |");
    let resp = TableResponse { result: Some(TableResult { rows }), provenance: Some(rp("vlm", 0)) };
    match table_to_payload(&resp) {
        Some(IaPayload::Table { gfm_markdown, .. }) => assert!(gfm_markdown.starts_with("| a |")),
        _ => panic!("expected a table"),
    }
    let empty = TableResponse { result: Some(TableResult { rows: vec![] }), provenance: Some(rp("vlm", 0)) };
    assert!(table_to_payload(&empty).is_none());
}

#[test]
fn image_and_formula_mapping() {
    let img = ImageResponse {
        result: Some(ImageResult { caption: "cap".to_string(), description: "long".to_string(), alt_text: String::new() }),
        provenance: Some(rp("vlm", 0)),
    };
    match image_to_payload(&img) {
        Some(IaPayload::Image { alt_text, caption, long_description, .. }) => {
            assert_eq!(alt_text, "cap");
            assert_eq!(caption, "cap");
            assert_eq!(long_description, "long");
        }
        _ => panic!(),
    }
    let f = FormulaResponse {
        result: Some(FormulaResult { latex: "x".to_string(), mathml: String::new() }),
        provenance: Some(rp("vlm", 0)),
    };
    assert!(matches!(formula_to_payload(&f), Some(IaPayload::Formula { mathml: None, .. })));
    let blank = FormulaResponse {
        result: Some(FormulaResult { latex: " ".to_string(), mathml: "m".to_string() }),
        provenance: Some(rp("vlm", 0)),
    };
    assert!(formula_to_payload(&blank).is_none());
}

#[test]
fn math_symbols_and_profiles() {
    assert!(is_math_symbol('∀'));
    assert!(is_math_symbol('α'));
    assert!(is_math_symbol('²'));
    assert!(is_math_symbol('='));
    assert!(!is_math_symbol('a'));
    assert!(!is_math_symbol('*'));
    assert_eq!(resolve_profile("fast"), ProfileName::Fast);
    assert_eq!(resolve_profile("scientific"), ProfileName::Scientific);
    assert_eq!(resolve_profile("anything"), ProfileName::Balanced);
}

#[test]
fn default_pipeline_options() {
    let o = ParsePipelineOptions::default();
    assert_eq!(o.profile, "balanced");
    assert!(!o.use_ia);
    assert_eq!(o.ollama_endpoint, "http://localhost:11434");
    assert_eq!(o.pdf_backend, "auto");
    assert!(o.input.as_os_str().is_empty());
    assert_eq!(o.input, std::path::PathBuf::new());
}

#[test]
fn straight_segments_of_paths() {
    let path = VectorPath {
        segments: vec![
            Segment::LineTo(pt(9.0, 9.0)),
            Segment::MoveTo(pt(0.0, 0.0)),
            Segment::LineTo(pt(10.0, 0.0)),
            Segment::CurveTo([pt(1.0, 1.0), pt(2.0, 2.0), pt(3.0, 3.0)]),
            Segment::LineTo(pt(3.0, 9.0)),
            Segment::Close,
        ],
        stroke: true,
        fill: false,
        bbox: BBox::new(0, 0, 0, 0).unwrap(),
    };
    let segs = paths_to_line_segments(&vec![path]);
    assert_eq!(
        segs,
        vec![
            LineSegment { start: pt(0.0, 0.0), end: pt(10.0, 0.0) },
            LineSegment { start: pt(3.0, 3.0), end: pt(3.0, 9.0) },
        ]
    );
}

#[test]
fn sha256_hex_of_abc() {
    assert_eq!(
        sha256_hex(b"abc"),
        "ba7816bf8f01cfea414140de5dae2223b00361a396177a9cb410ff61f20015ad"
    );
    assert_eq!(sha256_hex(b"").len(), 64);
    assert_eq!(hex_string(&vec![0x00, 0xff, 0x1a]), "00ff1a");
}

#[test]
fn correlation_ids_and_result_absorption() {
    assert_eq!(correlation_id(3, 0xab), "corr-3-00000000-0000-0000-0000-0000000000ab");
    let ids = vec![(correlation_id(0, 7), 7u128), (correlation_id(1, 8), 8u128)];
    let mut results = HashMap::new();
    let ok = StreamResult {
        correlation_id: correlation_id(1, 8),
        payload: Some(StreamPayload::Ocr(OcrResponse {
            result: Some(OcrResult { text: "t".to_string() }),
            provenance: Some(rp("ocr", 0)),
        })),
    };
    absorb_result(&mut results, &ids, &ok);
    assert_eq!(results.len(), 1);
    assert!(results.contains_key(&8));
    let err = StreamResult {
        correlation_id: correlation_id(0, 7),
        payload: Some(StreamPayload::Error { code: 13, message: "x".to_string() }),
    };
    absorb_result(&mut results, &ids, &err);
    let unknown = StreamResult { correlation_id: "corr-9-x".to_string(), payload: ok.payload.clone() };
    absorb_result(&mut results, &ids, &unknown);
    assert_eq!(results.len(), 1);
}
