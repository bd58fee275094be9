use strata::geometry::BBox;
use strata::pdf::{DecoderError, PureRustBackend, IMAGE_AREA_RATIO_THRESHOLD_BITS, MIN_GLYPHS_FOR_TEXT_PAGE};

#[test]
fn thresholds_are_stable() {
    assert_eq!(f32::from_bits(IMAGE_AREA_RATIO_THRESHOLD_BITS), 0.7);
    assert_eq!(MIN_GLYPHS_FOR_TEXT_PAGE, 10);
}

#[test]
fn pure_backend_opens_one_page() {
    let backend = PureRustBackend;
    assert_eq!(backend.name(), "pure-rust");
    let doc = backend.open(b"%PDF-1.7").unwrap();
    assert_eq!(doc.page_count(), 1);
    assert!(doc.page(0).is_ok());
    match doc.page(3) {
        Err(DecoderError::PageOutOfRange { requested, total }) => {
            assert_eq!(requested, 3);
            assert_eq!(total, 1);
        }
        _ => panic!("expected out of range"),
    }
}

#[test]
fn pure_page_is_a4_and_renders_a_png() {
    let page = strata::pdf::PureRustPage;
    let (w, h) = page.size_bits();
    assert_eq!(f32::from_bits(w), 595.27);
    assert_eq!(f32::from_bits(h), 841.89);
    let bx = BBox::new(0, 0, 0, 0).unwrap();
    let png = page.render_crop(bx, 72).unwrap();
    assert_eq!(&png[1..4], b"PNG");
}
