//! The document AST: [`Block`], [`Page`], [`Document`], plus the
//! [`Provenance`] record that says who produced every block.

use vstd::prelude::*;
use crate::bits::{self, spec_le, spec_nonfinite};
use crate::geometry::{BBox, Size};

verus! {

/// Identifier of a block; unique within a document.
pub type BlockId = u128;

/// Semantic role of a block.
#[derive(Copy, Clone, Debug, PartialEq, Eq, Structural)]
pub enum BlockType {
    Heading { level: u8 },
    Paragraph,
    List,
    Table,
    Figure,
    Caption,
    Equation,
    CodeListing,
    Footnote,
    Reference,
    Header,
    Footer,
    PageNumber,
}

/// Origin of a block's payload.
#[derive(Copy, Clone, Debug, PartialEq, Eq, Structural)]
pub enum ProvenanceSource {
    /// Deterministic native code.
    Rust,
    /// An OCR engine.
    Ocr,
    /// A vision-language model.
    Vlm,
}

/// Errors raised by [`Provenance::try_new`].
#[derive(Clone, Debug, PartialEq, Eq)]
pub enum ProvenanceError {
    /// The confidence (bit pattern given) is NaN, infinite or outside
    /// `[0.0, 1.0]`.
    ConfidenceOutOfRange(u32),
}

/// Trace metadata attached to every block.
#[derive(Clone, Debug, PartialEq)]
pub struct Provenance {
    pub source: ProvenanceSource,
    /// Model identifier; `None` for native code.
    pub model: Option<String>,
    /// Confidence in `[0.0, 1.0]`, as a binary32 bit pattern.
    pub confidence: u32,
    /// Latency of the producing stage, in milliseconds.
    pub latency_ms: u32,
    /// Retries needed (0 when the first attempt succeeded).
    pub retries: u8,
}

/// A confidence value is a finite float in `[0.0, 1.0]`.
pub open spec fn valid_confidence(c: u32) -> bool {
    !spec_nonfinite(c) && spec_le(bits::ZERO, c) && spec_le(c, bits::ONE)
}

pub fn copy_string(s: &String) -> (r: String)
    ensures
        r@ == s@,
{
    s.clone()
}

pub fn copy_opt_string(s: &Option<String>) -> (r: Option<String>)
    ensures
        r == *s,
{
    match s {
        Some(v) => Some(v.clone()),
        None => None,
    }
}

/// Mathematical view of a [`Provenance`].
pub struct ProvenanceV {
    pub source: ProvenanceSource,
    pub model: Option<Seq<char>>,
    pub confidence: u32,
    pub latency_ms: u32,
    pub retries: u8,
}

pub open spec fn opt_view(s: Option<String>) -> Option<Seq<char>> {
    match s {
        Some(v) => Some(v@),
        None => None,
    }
}

impl View for Provenance {
    type V = ProvenanceV;

    open spec fn view(&self) -> ProvenanceV {
        ProvenanceV {
            source: self.source,
            model: opt_view(self.model),
            confidence: self.confidence,
            latency_ms: self.latency_ms,
            retries: self.retries,
        }
    }
}

impl Provenance {
    /// Construct a provenance record, enforcing `confidence ∈ [0, 1]`.
    pub fn try_new(
        source: ProvenanceSource,
        model: Option<String>,
        confidence: u32,
        latency_ms: u32,
        retries: u8,
    ) -> (r: Result<Provenance, ProvenanceError>)
        ensures
            r is Ok <==> valid_confidence(confidence),
            r is Err ==> r == Err::<Provenance, ProvenanceError>(
                ProvenanceError::ConfidenceOutOfRange(confidence),
            ),
            r is Ok ==> r->Ok_0 == (Provenance { source, model, confidence, latency_ms, retries }),
    {
        if !bits::is_finite(confidence) || !bits::le(bits::ZERO, confidence) || !bits::le(
            confidence,
            bits::ONE,
        ) {
            return Err(ProvenanceError::ConfidenceOutOfRange(confidence));
        }
        Ok(Provenance { source, model, confidence, latency_ms, retries })
    }

    pub open spec fn spec_rust_native() -> Provenance {
        Provenance {
            source: ProvenanceSource::Rust,
            model: None,
            confidence: bits::ONE,
            latency_ms: 0,
            retries: 0,
        }
    }

    /// Produced by deterministic native code with full confidence.
    pub fn rust_native() -> (r: Provenance)
        ensures
            r == Provenance::spec_rust_native(),
    {
        Provenance {
            source: ProvenanceSource::Rust,
            model: None,
            confidence: bits::ONE,
            latency_ms: 0,
            retries: 0,
        }
    }

    pub fn duplicate(&self) -> (r: Provenance)
        ensures
            r@ == self@,
    {
        Provenance {
            source: self.source,
            model: copy_opt_string(&self.model),
            confidence: self.confidence,
            latency_ms: self.latency_ms,
            retries: self.retries,
        }
    }
}

/// Extra descriptive data some blocks carry after fusion.
#[derive(Clone, Debug, PartialEq, Eq)]
pub struct BlockMetadata {
    pub alt_text: Option<String>,
    pub description: Option<String>,
    pub mathml: Option<String>,
    pub media_path: Option<String>,
}

/// Mathematical view of a [`BlockMetadata`].
pub struct BlockMetadataV {
    pub alt_text: Option<Seq<char>>,
    pub description: Option<Seq<char>>,
    pub mathml: Option<Seq<char>>,
    pub media_path: Option<Seq<char>>,
}

impl View for BlockMetadata {
    type V = BlockMetadataV;

    open spec fn view(&self) -> BlockMetadataV {
        BlockMetadataV {
            alt_text: opt_view(self.alt_text),
            description: opt_view(self.description),
            mathml: opt_view(self.mathml),
            media_path: opt_view(self.media_path),
        }
    }
}

pub open spec fn opt_meta_view(m: Option<BlockMetadata>) -> Option<BlockMetadataV> {
    match m {
        Some(v) => Some(v@),
        None => None,
    }
}

impl BlockMetadata {
    pub fn duplicate(&self) -> (r: BlockMetadata)
        ensures
            r@ == self@,
    {
        BlockMetadata {
            alt_text: copy_opt_string(&self.alt_text),
            description: copy_opt_string(&self.description),
            mathml: copy_opt_string(&self.mathml),
            media_path: copy_opt_string(&self.media_path),
        }
    }
}

pub fn copy_ids(v: &Vec<BlockId>) -> (r: Vec<BlockId>)
    ensures
        r@ == v@,
{
    let mut r: Vec<BlockId> = Vec::new();
    for i in 0..v.len()
        invariant
            r@ == v@.take(i as int),
    {
        r.push(v[i]);
        assert(v@.take(i + 1) == v@.take(i as int).push(v@[i as int]));
    }
    assert(v@.take(v.len() as int) == v@);
    r
}

/// One node of the AST: a region of a page with its text payload.
#[derive(Clone, Debug, PartialEq)]
pub struct Block {
    pub id: BlockId,
    pub kind: BlockType,
    pub bbox: BBox,
    pub content: String,
    pub children: Vec<BlockId>,
    pub metadata: Option<BlockMetadata>,
    pub provenance: Provenance,
}

/// Mathematical view of a [`Block`].
pub struct BlockV {
    pub id: BlockId,
    pub kind: BlockType,
    pub bbox: BBox,
    pub content: Seq<char>,
    pub children: Seq<BlockId>,
    pub metadata: Option<BlockMetadataV>,
    pub provenance: ProvenanceV,
}

impl View for Block {
    type V = BlockV;

    open spec fn view(&self) -> BlockV {
        BlockV {
            id: self.id,
            kind: self.kind,
            bbox: self.bbox,
            content: self.content@,
            children: self.children@,
            metadata: opt_meta_view(self.metadata),
            provenance: self.provenance@,
        }
    }
}

impl Block {
    pub fn duplicate(&self) -> (r: Block)
        ensures
            r@ == self@,
    {
        Block {
            id: self.id,
            kind: self.kind,
            bbox: self.bbox,
            content: self.content.clone(),
            children: copy_ids(&self.children),
            metadata: match &self.metadata {
                Some(m) => Some(m.duplicate()),
                None => None,
            },
            provenance: self.provenance.duplicate(),
        }
    }
}

/// Page orientation.
#[derive(Copy, Clone, Debug, PartialEq, Eq, Structural)]
pub enum PageOrientation {
    Portrait,
    Landscape,
}

/// One page of the AST.
#[derive(Clone, Debug, PartialEq)]
pub struct Page {
    /// 1-indexed page number.
    pub number: u32,
    /// Media-box size in PDF points.
    pub size: Size,
    pub orientation: PageOrientation,
    /// Blocks in undefined order.
    pub blocks: Vec<Block>,
    /// Ids of the blocks in reading order.
    pub reading_order: Vec<BlockId>,
    /// Media-box rectangle.
    pub media_box: BBox,
}

/// Mathematical view of a [`Page`].
pub struct PageV {
    pub number: u32,
    pub size: Size,
    pub orientation: PageOrientation,
    pub blocks: Seq<BlockV>,
    pub reading_order: Seq<BlockId>,
    pub media_box: BBox,
}

impl View for Page {
    type V = PageV;

    open spec fn view(&self) -> PageV {
        PageV {
            number: self.number,
            size: self.size,
            orientation: self.orientation,
            blocks: self.blocks@.map_values(|b: Block| b@),
            reading_order: self.reading_order@,
            media_box: self.media_box,
        }
    }
}

impl Page {
    /// An empty page; landscape exactly when `width >= height`.
    pub fn new(number: u32, size: Size, media_box: BBox) -> (r: Page)
        ensures
            r.number == number,
            r.size == size,
            r.media_box == media_box,
            r.blocks@.len() == 0,
            r.reading_order@.len() == 0,
            r.orientation == (if spec_le(size.height, size.width) {
                PageOrientation::Landscape
            } else {
                PageOrientation::Portrait
            }),
    {
        let orientation = if bits::le(size.height, size.width) {
            PageOrientation::Landscape
        } else {
            PageOrientation::Portrait
        };
        Page {
            number,
            size,
            orientation,
            blocks: Vec::new(),
            reading_order: Vec::new(),
            media_box,
        }
    }
}

/// Metadata travelling with every parsed document.
#[derive(Clone, Debug, PartialEq, Eq)]
pub struct DocMeta {
    /// SHA-256 hex digest of the source PDF.
    pub source_sha256: String,
    /// Base name of the source PDF.
    pub source_filename: String,
    /// Schema version that produced the document.
    pub schema_version: String,
    /// Pipeline profile ("fast" / "balanced" / "scientific").
    pub profile: String,
    /// Free-form extension entries, in key order.
    pub extra: Vec<(String, String)>,
}

/// Mathematical view of a [`DocMeta`].
pub struct DocMetaV {
    pub source_sha256: Seq<char>,
    pub source_filename: Seq<char>,
    pub schema_version: Seq<char>,
    pub profile: Seq<char>,
    pub extra: Seq<(Seq<char>, Seq<char>)>,
}

impl View for DocMeta {
    type V = DocMetaV;

    open spec fn view(&self) -> DocMetaV {
        DocMetaV {
            source_sha256: self.source_sha256@,
            source_filename: self.source_filename@,
            schema_version: self.schema_version@,
            profile: self.profile@,
            extra: self.extra@.map_values(|e: (String, String)| (e.0@, e.1@)),
        }
    }
}

impl DocMeta {
    pub fn duplicate(&self) -> (r: DocMeta)
        ensures
            r@ == self@,
    {
        let mut extra: Vec<(String, String)> = Vec::new();
        for i in 0..self.extra.len()
            invariant
                extra@.len() == i,
                forall|j: int|
                    0 <= j < i ==> extra@[j].0@ == self.extra@[j].0@ && extra@[j].1@
                        == self.extra@[j].1@,
        {
            extra.push((self.extra[i].0.clone(), self.extra[i].1.clone()));
        }
        assert(extra@.map_values(|e: (String, String)| (e.0@, e.1@)) =~= self.extra@.map_values(
            |e: (String, String)| (e.0@, e.1@),
        ));
        DocMeta {
            source_sha256: self.source_sha256.clone(),
            source_filename: self.source_filename.clone(),
            schema_version: self.schema_version.clone(),
            profile: self.profile.clone(),
            extra,
        }
    }
}

/// Root of the AST.
#[derive(Clone, Debug, PartialEq)]
pub struct Document {
    pub meta: DocMeta,
    pub pages: Vec<Page>,
}

/// Mathematical view of a [`Document`].
pub struct DocumentV {
    pub meta: DocMetaV,
    pub pages: Seq<PageV>,
}

impl View for Document {
    type V = DocumentV;

    open spec fn view(&self) -> DocumentV {
        DocumentV { meta: self.meta@, pages: self.pages@.map_values(|p: Page| p@) }
    }
}

impl Document {
    /// A document with no pages.
    pub fn new(meta: DocMeta) -> (r: Document)
        ensures
            r.meta == meta,
            r.pages@.len() == 0,
    {
        Document { meta, pages: Vec::new() }
    }

    /// Number of pages.
    pub fn page_count(&self) -> (n: usize)
        ensures
            n == self.pages@.len(),
    {
        self.pages.len()
    }
}

} // verus!
