//! Fusion of a native document with the payloads the AI layer returned
//! for some of its blocks, and the post-fusion content check.
//!
//! Fusion builds a new document; the input is never modified.  Blocks
//! without a payload pass through verbatim; blocks with one get the
//! payload's content and provenance (and, for tables, figures and
//! formulas, the matching type and metadata).

use vstd::prelude::*;
use std::collections::HashMap;
use crate::model::{
    copy_ids, copy_opt_string, opt_view, Block, BlockId, BlockMetadata, BlockMetadataV, BlockType, BlockV,
    Document, DocumentV, Page, PageV, Provenance,
};
use crate::text::{is_blank, trim};

verus! {

broadcast use vstd::std_specs::hash::group_hash_axioms;

/// What the AI layer can hand back for one block.
#[derive(Clone, Debug, PartialEq)]
pub enum IaPayload {
    /// OCR transcription: plain text.
    Ocr { text: String, provenance: Provenance },
    /// Table extraction: GitHub-flavoured Markdown.
    Table { gfm_markdown: String, provenance: Provenance },
    /// Image description: a short caption, a long description and an
    /// alt text.
    Image { caption: String, long_description: String, alt_text: String, provenance: Provenance },
    /// Formula: LaTeX, and MathML when available.
    Formula { latex: String, mathml: Option<String>, provenance: Provenance },
}

/// The provenance a payload carries.
pub open spec fn payload_provenance(p: IaPayload) -> Provenance {
    match p {
        IaPayload::Ocr { provenance, .. } => provenance,
        IaPayload::Table { provenance, .. } => provenance,
        IaPayload::Image { provenance, .. } => provenance,
        IaPayload::Formula { provenance, .. } => provenance,
    }
}

/// The block content a payload supplies.
pub open spec fn payload_content(p: IaPayload) -> Seq<char> {
    match p {
        IaPayload::Ocr { text, .. } => text@,
        IaPayload::Table { gfm_markdown, .. } => gfm_markdown@,
        IaPayload::Image { caption, .. } => caption@,
        IaPayload::Formula { latex, .. } => latex@,
    }
}

impl IaPayload {
    /// The provenance of the payload.
    pub fn provenance(&self) -> (r: &Provenance)
        ensures
            *r == payload_provenance(*self),
    {
        match self {
            IaPayload::Ocr { provenance, .. } => provenance,
            IaPayload::Table { provenance, .. } => provenance,
            IaPayload::Image { provenance, .. } => provenance,
            IaPayload::Formula { provenance, .. } => provenance,
        }
    }

    /// The block content the payload supplies.
    pub fn content(&self) -> (r: String)
        ensures
            r@ == payload_content(*self),
    {
        match self {
            IaPayload::Ocr { text, .. } => text.clone(),
            IaPayload::Table { gfm_markdown, .. } => gfm_markdown.clone(),
            IaPayload::Image { caption, .. } => caption.clone(),
            IaPayload::Formula { latex, .. } => latex.clone(),
        }
    }
}

/// A block after its payload is applied.
pub open spec fn apply_v(b: BlockV, p: IaPayload) -> BlockV {
    let (kind, metadata) = match p {
        IaPayload::Ocr { .. } => (b.kind, None),
        IaPayload::Table { .. } => (BlockType::Table, None),
        IaPayload::Image { alt_text, long_description, .. } => (
            BlockType::Figure,
            Some(
                BlockMetadataV {
                    alt_text: Some(alt_text@),
                    description: Some(long_description@),
                    mathml: None,
                    media_path: None,
                },
            ),
        ),
        IaPayload::Formula { mathml, .. } => (
            BlockType::Equation,
            Some(
                BlockMetadataV {
                    alt_text: None,
                    description: None,
                    mathml: opt_view(mathml),
                    media_path: None,
                },
            ),
        ),
    };
    BlockV {
        id: b.id,
        kind,
        bbox: b.bbox,
        content: payload_content(p),
        children: b.children,
        metadata,
        provenance: payload_provenance(p)@,
    }
}

/// A block after fusion: its payload applied when it has one.
pub open spec fn fuse_block(b: BlockV, m: Map<BlockId, IaPayload>) -> BlockV {
    if m.contains_key(b.id) {
        apply_v(b, m[b.id])
    } else {
        b
    }
}

pub open spec fn fuse_page(pg: PageV, m: Map<BlockId, IaPayload>) -> PageV {
    PageV { blocks: pg.blocks.map_values(|b: BlockV| fuse_block(b, m)), ..pg }
}

/// A document after fusion.
pub open spec fn fuse_doc(d: DocumentV, m: Map<BlockId, IaPayload>) -> DocumentV {
    DocumentV { meta: d.meta, pages: d.pages.map_values(|pg: PageV| fuse_page(pg, m)) }
}

/// Applies `payload` to a copy of `block`.
pub fn apply_payload(block: &Block, payload: &IaPayload) -> (r: Block)
    ensures
        r@ == apply_v(block@, *payload),
{
    let (kind, metadata) = match payload {
        IaPayload::Ocr { .. } => (block.kind, None),
        IaPayload::Table { .. } => (BlockType::Table, None),
        IaPayload::Image { alt_text, long_description, .. } => {
            let meta = BlockMetadata {
                alt_text: Some(alt_text.clone()),
                description: Some(long_description.clone()),
                mathml: None,
                media_path: None,
            };
            (BlockType::Figure, Some(meta))
        },
        IaPayload::Formula { mathml, .. } => {
            let meta = BlockMetadata {
                alt_text: None,
                description: None,
                mathml: copy_opt_string(mathml),
                media_path: None,
            };
            (BlockType::Equation, Some(meta))
        },
    };
    Block {
        id: block.id,
        kind,
        bbox: block.bbox,
        content: payload.content(),
        children: copy_ids(&block.children),
        metadata,
        provenance: payload.provenance().duplicate(),
    }
}

/// The page with every block that has a payload replaced.
pub fn merge_page(page: &Page, ia_results: &HashMap<BlockId, IaPayload>) -> (r: Page)
    ensures
        r@ == fuse_page(page@, ia_results@),
{
    let mut blocks: Vec<Block> = Vec::new();
    for i in 0..page.blocks.len()
        invariant
            blocks@.len() == i,
            forall|j: int| 0 <= j < i ==> #[trigger] blocks@[j]@ == fuse_block(page.blocks@[j]@, ia_results@),
    {
        let b = &page.blocks[i];
        match ia_results.get(&b.id) {
            Some(payload) => {
                blocks.push(apply_payload(b, payload));
            },
            None => {
                blocks.push(b.duplicate());
            },
        }
    }
    let r = Page {
        number: page.number,
        size: page.size,
        orientation: page.orientation,
        blocks,
        reading_order: copy_ids(&page.reading_order),
        media_box: page.media_box,
    };
    assert(r@.blocks =~= fuse_page(page@, ia_results@).blocks);
    r
}

/// A new document: `native` with each block that has a payload in
/// `ia_results` rebuilt from it.
pub fn merge(native: &Document, ia_results: &HashMap<BlockId, IaPayload>) -> (r: Document)
    ensures
        r@ == fuse_doc(native@, ia_results@),
{
    let mut pages: Vec<Page> = Vec::new();
    for i in 0..native.pages.len()
        invariant
            pages@.len() == i,
            forall|j: int| 0 <= j < i ==> #[trigger] pages@[j]@ == fuse_page(native.pages@[j]@, ia_results@),
    {
        pages.push(merge_page(&native.pages[i], ia_results));
    }
    let r = Document { meta: native.meta.duplicate(), pages };
    assert(r@.pages =~= fuse_doc(native@, ia_results@).pages);
    r
}

/// A post-fusion violation: a block that must have text but has none.
#[derive(Clone, Debug, PartialEq, Eq, Structural)]
pub enum FusionError {
    EmptyContent { block_id: BlockId, kind: BlockType },
}

/// Headers, footers, page numbers and figures may stay empty.
pub open spec fn exempt(kind: BlockType) -> bool {
    kind == BlockType::Header || kind == BlockType::Footer || kind == BlockType::PageNumber || kind
        == BlockType::Figure
}

pub open spec fn violates(b: Block) -> bool {
    !exempt(b.kind) && trim(b.content@).len() == 0
}

/// The first violating block of a block list.
pub open spec fn first_violation_in(bs: Seq<Block>) -> Option<Block>
    decreases bs.len(),
{
    if bs.len() == 0 {
        None
    } else {
        match first_violation_in(bs.drop_last()) {
            Some(b) => Some(b),
            None => if violates(bs.last()) {
                Some(bs.last())
            } else {
                None
            },
        }
    }
}

/// The first violating block of a document, page after page.
pub open spec fn first_violation(pages: Seq<Page>) -> Option<Block>
    decreases pages.len(),
{
    if pages.len() == 0 {
        None
    } else {
        match first_violation(pages.drop_last()) {
            Some(b) => Some(b),
            None => first_violation_in(pages.last().blocks@),
        }
    }
}

/// Every block that must have text after fusion has some; otherwise the
/// first offending block (pages in order, blocks in storage order).
pub fn validate(doc: &Document) -> (r: Result<(), FusionError>)
    ensures
        match first_violation(doc.pages@) {
            None => r is Ok,
            Some(b) => r == Err::<(), FusionError>(FusionError::EmptyContent { block_id: b.id, kind: b.kind }),
        },
{
    for p in 0..doc.pages.len()
        invariant
            first_violation(doc.pages@.take(p as int)) is None,
    {
        let page = &doc.pages[p];
        proof {
            assert(doc.pages@.take(p + 1).drop_last() =~= doc.pages@.take(p as int));
        }
        for q in 0..page.blocks.len()
            invariant
                p < doc.pages@.len(),
                page == &doc.pages@[p as int],
                first_violation(doc.pages@.take(p as int)) is None,
                first_violation_in(page.blocks@.take(q as int)) is None,
        {
            let block = &page.blocks[q];
            proof {
                assert(page.blocks@.take(q + 1).drop_last() =~= page.blocks@.take(q as int));
            }
            let is_exempt = block.kind == BlockType::Header || block.kind == BlockType::Footer
                || block.kind == BlockType::PageNumber || block.kind == BlockType::Figure;
            if !is_exempt && is_blank(block.content.as_str()) {
                proof {
                    assert(first_violation_in(page.blocks@.take(q + 1)) == Some(*block));
                    lemma_first_violation_in_prefix(page.blocks@, q + 1, *block);
                    assert(doc.pages@.take(p + 1).drop_last() =~= doc.pages@.take(p as int));
                    assert(doc.pages@.take(p + 1).last() == doc.pages@[p as int]);
                    assert(first_violation(doc.pages@.take(p + 1)) == Some(*block));
                    lemma_first_violation_prefix(doc.pages@, p + 1, *block);
                }
                return Err(FusionError::EmptyContent { block_id: block.id, kind: block.kind });
            }
        }
        assert(page.blocks@.take(page.blocks@.len() as int) =~= page.blocks@);
    }
    assert(doc.pages@.take(doc.pages@.len() as int) =~= doc.pages@);
    Ok(())
}

proof fn lemma_first_violation_in_prefix(bs: Seq<Block>, k: int, b: Block)
    requires
        0 <= k <= bs.len(),
        first_violation_in(bs.take(k)) == Some(b),
    ensures
        first_violation_in(bs) == Some(b),
    decreases bs.len() - k,
{
    if k < bs.len() {
        assert(bs.take(k + 1).drop_last() =~= bs.take(k));
        lemma_first_violation_in_prefix(bs, k + 1, b);
    } else {
        assert(bs.take(k) =~= bs);
    }
}

proof fn lemma_first_violation_prefix(pages: Seq<Page>, k: int, b: Block)
    requires
        0 <= k <= pages.len(),
        first_violation(pages.take(k)) == Some(b),
    ensures
        first_violation(pages) == Some(b),
    decreases pages.len() - k,
{
    if k < pages.len() {
        assert(pages.take(k + 1).drop_last() =~= pages.take(k));
        lemma_first_violation_prefix(pages, k + 1, b);
    } else {
        assert(pages.take(k) =~= pages);
    }
}

/// Fusing twice with the same payloads changes nothing more than fusing
/// once.
pub proof fn lemma_fusion_idempotent(d: DocumentV, m: Map<BlockId, IaPayload>)
    ensures
        fuse_doc(fuse_doc(d, m), m) == fuse_doc(d, m),
{
    let once = fuse_doc(d, m);
    let twice = fuse_doc(once, m);
    assert forall|i: int| 0 <= i < d.pages.len() implies #[trigger] twice.pages[i] == once.pages[i] by {
        let pg = d.pages[i];
        let p1 = fuse_page(pg, m);
        let p2 = fuse_page(p1, m);
        assert forall|j: int| 0 <= j < pg.blocks.len() implies #[trigger] p2.blocks[j] == p1.blocks[j] by {
            let b = pg.blocks[j];
            let b1 = fuse_block(b, m);
            assert(b1.id == b.id);
            if m.contains_key(b.id) {
                let p = m[b.id];
                let b2 = apply_v(b1, p);
                assert(b2.kind == b1.kind);
                assert(b2 == b1);
            }
        }
        assert(p2.blocks =~= p1.blocks);
    }
    assert(twice.pages =~= once.pages);
}

/// Blocks without a payload come out of fusion unchanged; blocks with one
/// keep their id, box and children and take the payload's content and
/// provenance.
pub proof fn lemma_fusion_keeps_identity(b: BlockV, m: Map<BlockId, IaPayload>)
    ensures
        fuse_block(b, m).id == b.id,
        fuse_block(b, m).bbox == b.bbox,
        fuse_block(b, m).children == b.children,
        !m.contains_key(b.id) ==> fuse_block(b, m) == b,
        m.contains_key(b.id) ==> fuse_block(b, m).content == payload_content(m[b.id])
            && fuse_block(b, m).provenance == payload_provenance(m[b.id])@,
{
}

/// Fusion works block by block on every page: the fused document has the
/// same metadata and pages, each page keeps its number, size, orientation,
/// reading order and media box, and block `j` of page `i` becomes
/// `fuse_block` of block `j` of page `i` of the input, whichever page it
/// is on.
pub proof fn lemma_fusion_every_page(d: DocumentV, m: Map<BlockId, IaPayload>)
    ensures
        fuse_doc(d, m).meta == d.meta,
        fuse_doc(d, m).pages.len() == d.pages.len(),
        forall|i: int|
            0 <= i < d.pages.len() ==> {
                let fp = #[trigger] fuse_doc(d, m).pages[i];
                let pg = d.pages[i];
                &&& fp.number == pg.number
                &&& fp.size == pg.size
                &&& fp.orientation == pg.orientation
                &&& fp.reading_order == pg.reading_order
                &&& fp.media_box == pg.media_box
                &&& fp.blocks.len() == pg.blocks.len()
                &&& forall|j: int|
                    0 <= j < pg.blocks.len() ==> #[trigger] fp.blocks[j] == fuse_block(pg.blocks[j], m)
            },
{
}

/// A block with a payload takes the payload's content and provenance
/// wherever it stands in the document; a block without one is unchanged.
pub proof fn lemma_fusion_applies_payloads(d: DocumentV, m: Map<BlockId, IaPayload>, i: int, j: int)
    requires
        0 <= i < d.pages.len(),
        0 <= j < d.pages[i].blocks.len(),
    ensures
        m.contains_key(d.pages[i].blocks[j].id) ==> fuse_doc(d, m).pages[i].blocks[j].content == payload_content(
            m[d.pages[i].blocks[j].id],
        ) && fuse_doc(d, m).pages[i].blocks[j].provenance == payload_provenance(m[d.pages[i].blocks[j].id])@,
        !m.contains_key(d.pages[i].blocks[j].id) ==> fuse_doc(d, m).pages[i].blocks[j] == d.pages[i].blocks[j],
        fuse_doc(d, m).pages[i].blocks[j].id == d.pages[i].blocks[j].id,
{
    lemma_fusion_every_page(d, m);
    lemma_fusion_keeps_identity(d.pages[i].blocks[j], m);
}

} // verus!
