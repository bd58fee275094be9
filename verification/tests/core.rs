use strata::bits;
use strata::geometry::{BBox, GeometryError, Point, Size};
use strata::model::{
    Block, BlockType, DocMeta, Document, Page, PageOrientation, Provenance, ProvenanceError,
    ProvenanceSource,
};

fn b(v: f32) -> u32 {
    v.to_bits()
}

fn bbox(x0: f32, y0: f32, x1: f32, y1: f32) -> BBox {
    BBox::new(b(x0), b(y0), b(x1), b(y1)).unwrap()
}

fn sample_meta() -> DocMeta {
    DocMeta {
        source_sha256: "0".repeat(64),
        source_filename: "test.pdf".to_string(),
        schema_version: "0.1.0".to_string(),
        profile: "balanced".to_string(),
        extra: vec![],
    }
}

#[test]
fn lib_version_matches_pkg() {
    assert_eq!(strata::version(), "0.1.0");
}

#[test]
fn new_rejects_nan() {
    assert!(BBox::new(b(f32::NAN), b(0.0), b(1.0), b(1.0)).is_err());
    assert!(BBox::new(b(0.0), b(0.0), b(f32::INFINITY), b(1.0)).is_err());
}

#[test]
fn new_rejects_inverted_axis() {
    assert!(matches!(
        BBox::new(b(10.0), b(0.0), b(0.0), b(5.0)),
        Err(GeometryError::Inverted { .. })
    ));
}

#[test]
fn nonfinite_is_reported_before_inversion() {
    assert_eq!(
        BBox::new(b(10.0), b(0.0), b(f32::NAN), b(5.0)),
        Err(GeometryError::NonFinite)
    );
}

#[test]
fn degenerate_box() {
    let bx = bbox(5.0, 5.0, 5.0, 10.0);
    assert!(bx.is_degenerate());
    assert!(!bbox(0.0, 0.0, 1.0, 1.0).is_degenerate());
}

#[test]
fn intersect_disjoint_returns_none() {
    let a = bbox(0.0, 0.0, 10.0, 10.0);
    let c = bbox(20.0, 20.0, 30.0, 30.0);
    assert!(a.intersect(c).is_none());
    assert!(!a.intersects(c));
}

#[test]
fn intersect_overlap_is_common_part() {
    let a = bbox(0.0, 0.0, 10.0, 10.0);
    let c = bbox(5.0, 2.0, 30.0, 8.0);
    assert_eq!(a.intersect(c), Some(bbox(5.0, 2.0, 10.0, 8.0)));
    assert_eq!(a.intersects(c), a.intersect(c).is_some());
}

#[test]
fn union_contains_both_and_commutes() {
    let a = bbox(0.0, 0.0, 10.0, 10.0);
    let c = bbox(-5.0, 3.0, 4.0, 20.0);
    let u = a.union(c);
    assert_eq!(u, bbox(-5.0, 0.0, 10.0, 20.0));
    assert!(u.contains_bbox(a));
    assert!(u.contains_bbox(c));
    assert_eq!(a.union(c), c.union(a));
}

#[test]
fn contains_point_is_inclusive() {
    let a = bbox(0.0, 0.0, 10.0, 10.0);
    assert!(a.contains_point(Point { x: b(10.0), y: b(0.0) }));
    assert!(!a.contains_point(Point { x: b(10.5), y: b(0.0) }));
}

#[test]
fn from_corners_orders_coordinates() {
    let p = Point::new(b(10.0), b(2.0)).unwrap();
    let q = Point::new(b(1.0), b(7.0)).unwrap();
    assert_eq!(BBox::from_corners(p, q), bbox(1.0, 2.0, 10.0, 7.0));
    assert!(Point::new(b(f32::NAN), b(0.0)).is_err());
    assert_eq!(Point::origin(), Point { x: b(0.0), y: b(0.0) });
}

#[test]
fn size_rejects_negative() {
    assert!(Size::new(b(-1.0), b(2.0)).is_err());
    assert!(Size::new(b(595.0), b(842.0)).is_ok());
}

#[test]
fn float_bit_comparisons() {
    assert!(bits::le(b(-0.0), b(0.0)));
    assert!(bits::eq(b(-0.0), b(0.0)));
    assert!(bits::lt(b(-3.0), b(2.0)));
    assert!(!bits::le(b(f32::NAN), b(2.0)));
    assert_eq!(bits::min(b(3.0), b(2.0)), b(2.0));
    assert_eq!(bits::max(b(f32::NAN), b(2.0)), b(2.0));
    assert!(!bits::is_finite(b(f32::INFINITY)));
    assert!(bits::is_nan(b(f32::NAN)));
}

#[test]
fn rejects_above_one_confidence() {
    assert!(Provenance::try_new(ProvenanceSource::Vlm, None, b(1.01), 0, 0).is_err());
}

#[test]
fn rejects_nan_confidence() {
    assert!(Provenance::try_new(ProvenanceSource::Ocr, None, b(f32::NAN), 0, 0).is_err());
}

#[test]
fn rejects_negative_confidence() {
    assert!(Provenance::try_new(ProvenanceSource::Rust, None, b(-0.1), 0, 0).is_err());
}

#[test]
fn rejects_negative_confidence_with_its_value() {
    assert_eq!(
        Provenance::try_new(ProvenanceSource::Ocr, None, b(-0.5), 0, 0),
        Err(ProvenanceError::ConfidenceOutOfRange(b(-0.5)))
    );
}

#[test]
fn accepts_boundary_values() {
    assert!(Provenance::try_new(ProvenanceSource::Rust, None, b(0.0), 0, 0).is_ok());
    assert!(Provenance::try_new(ProvenanceSource::Rust, None, b(1.0), 0, 0).is_ok());
}

#[test]
fn rust_native_has_full_confidence() {
    let p = Provenance::rust_native();
    assert_eq!(p.source, ProvenanceSource::Rust);
    assert_eq!(p.confidence, b(1.0));
    assert_eq!(p.model, None);
    assert_eq!(p.latency_ms, 0);
}

#[test]
fn portrait_when_height_greater_than_width() {
    let size = Size::new(b(595.0), b(842.0)).unwrap();
    let p = Page::new(1, size, bbox(0.0, 0.0, 595.0, 842.0));
    assert_eq!(p.orientation, PageOrientation::Portrait);
}

#[test]
fn landscape_when_width_greater_than_height() {
    let size = Size::new(b(842.0), b(595.0)).unwrap();
    let p = Page::new(1, size, bbox(0.0, 0.0, 842.0, 595.0));
    assert_eq!(p.orientation, PageOrientation::Landscape);
}

#[test]
fn square_page_is_landscape() {
    let size = Size::new(b(500.0), b(500.0)).unwrap();
    let p = Page::new(3, size, bbox(0.0, 0.0, 500.0, 500.0));
    assert_eq!(p.orientation, PageOrientation::Landscape);
    assert_eq!(p.number, 3);
    assert!(p.blocks.is_empty());
}

#[test]
fn new_document_has_no_pages() {
    let doc = Document::new(sample_meta());
    assert_eq!(doc.page_count(), 0);
    assert_eq!(doc.meta.profile, "balanced");
}

#[test]
fn duplicate_keeps_every_field() {
    let blk = Block {
        id: 7,
        kind: BlockType::Heading { level: 2 },
        bbox: bbox(0.0, 0.0, 1.0, 1.0),
        content: "Intro".to_string(),
        children: vec![1, 2],
        metadata: None,
        provenance: Provenance::rust_native(),
    };
    assert_eq!(blk.duplicate(), blk);
    let meta = sample_meta();
    assert_eq!(meta.duplicate(), meta);
}
