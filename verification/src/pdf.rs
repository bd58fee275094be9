//! PDF decoding: the decoder's errors, the scan-detection thresholds, and
//! the pure-Rust placeholder backend (one blank A4 page).

use vstd::prelude::*;
use std::path::PathBuf;
use crate::geometry::BBox;

verus! {

/// Failure of a PDF decoding backend.
#[derive(Debug)]
pub enum DecoderError {
    /// The native PDFium library could not be loaded.
    PdfiumLoad(String),
    /// The file could not be read.
    Io { path: PathBuf, source: std::io::Error },
    /// The backend rejected the document.
    Parse(String),
    /// A page index past the end of the document.
    PageOutOfRange { requested: usize, total: usize },
    /// Any other backend failure.
    Internal(String),
}

/// A page with fewer glyphs than this counts as text-empty.
pub const MIN_GLYPHS_FOR_TEXT_PAGE: usize = 10;

/// Image coverage (as a fraction of the page) above which a page counts
/// as image-dominated: 0.7 as a binary32 bit pattern.
pub const IMAGE_AREA_RATIO_THRESHOLD_BITS: u32 = 0x3F33_3333;

/// The pure-Rust backend.
#[derive(Copy, Clone, Debug, Default)]
pub struct PureRustBackend;

/// A document opened by the pure-Rust backend.
#[derive(Copy, Clone, Debug)]
pub struct PureRustDoc {
    page_count: usize,
}

/// A page of a pure-Rust document.
#[derive(Copy, Clone, Debug, Default)]
pub struct PureRustPage;

impl PureRustBackend {
    pub fn name(&self) -> (r: &'static str)
        ensures
            r@ == "pure-rust"@,
    {
        "pure-rust"
    }

    /// Opens `data` as a single-page document.
    pub fn open(&self, data: &[u8]) -> (r: Result<PureRustDoc, DecoderError>)
        ensures
            r matches Ok(d) && d.page_count_spec() == 1,
    {
        Ok(PureRustDoc { page_count: 1 })
    }
}

impl PureRustDoc {
    pub closed spec fn page_count_spec(&self) -> nat {
        self.page_count as nat
    }

    pub fn page_count(&self) -> (r: usize)
        ensures
            r == self.page_count_spec(),
    {
        self.page_count
    }

    /// Page `index`; out of range past the last page.
    pub fn page(&self, index: usize) -> (r: Result<PureRustPage, DecoderError>)
        ensures
            index < self.page_count_spec() <==> r is Ok,
            index >= self.page_count_spec() ==> (r matches Err(
                DecoderError::PageOutOfRange { requested, total },
            ) && requested == index && total == self.page_count_spec()),
    {
        if index >= self.page_count {
            return Err(DecoderError::PageOutOfRange { requested: index, total: self.page_count });
        }
        Ok(PureRustPage)
    }
}

/// The PNG encoding of a fully transparent RGBA image of the given size,
/// as the `image` crate produces it.
pub uninterp spec fn blank_png(width: u32, height: u32) -> Seq<u8>;

/// `image::RgbaImage::new` then `write_to` as PNG into memory; the bytes
/// are named [`blank_png`]; an encoder error is handed back as its text.
/// Writing into a `Vec` cannot fail for I/O reasons, and the PNG encoder
/// accepts every non-empty RGBA8 image, so a non-empty size succeeds.
#[verifier::external_body]
fn encode_blank_png(width: u32, height: u32) -> (r: Result<Vec<u8>, String>)
    ensures
        r matches Ok(v) ==> v@ == blank_png(width, height),
        width > 0 && height > 0 ==> r is Ok,
{
    let mut png: Vec<u8> = Vec::new();
    let rgba = image::RgbaImage::new(width, height);
    match rgba.write_to(&mut std::io::Cursor::new(&mut png), image::ImageFormat::Png) {
        Ok(()) => Ok(png),
        Err(e) => Err(e.to_string()),
    }
}

impl PureRustPage {
    /// A4 in points (595.27 × 841.89), as binary32 bit patterns.
    pub fn size_bits(&self) -> (r: (u32, u32))
        ensures
            r == (0x4414_D148u32, 0x4452_78F6u32),
    {
        (0x4414_D148, 0x4452_78F6)
    }

    /// A blank 1×1 PNG, whatever region and resolution are asked for.
    pub fn render_crop(&self, bbox: BBox, dpi: u16) -> (r: Result<Vec<u8>, DecoderError>)
        ensures
            r matches Ok(v) && v@ == blank_png(1, 1),
    {
        match encode_blank_png(1, 1) {
            Ok(v) => Ok(v),
            Err(msg) => Err(DecoderError::Internal(msg)),
        }
    }
}

} // verus!
