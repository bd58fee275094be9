use strata::chunker::{chunk, chunk_with, count_tokens, ChunkOptions};
use strata::geometry::{BBox, Size};
use strata::model::{Block, BlockType, DocMeta, Document, Page, PageOrientation, Provenance};

fn b(v: f32) -> u32 {
    v.to_bits()
}

fn block(id: u128, content: &str, kind: BlockType) -> Block {
    Block {
        id,
        kind,
        bbox: BBox::new(b(0.0), b(0.0), b(10.0), b(10.0)).unwrap(),
        content: content.to_string(),
        children: vec![],
        metadata: None,
        provenance: Provenance::rust_native(),
    }
}

fn doc_from(blocks: Vec<Block>, page_no: u32) -> Document {
    let reading_order = blocks.iter().map(|x| x.id).collect();
    Document {
        meta: DocMeta {
            source_sha256: "0".repeat(64),
            source_filename: "t.pdf".to_string(),
            schema_version: "0.1.0".to_string(),
            profile: "balanced".to_string(),
            extra: vec![],
        },
        pages: vec![Page {
            number: page_no,
            size: Size::new(b(595.0), b(842.0)).unwrap(),
            orientation: PageOrientation::Portrait,
            blocks,
            reading_order,
            media_box: BBox::new(b(0.0), b(0.0), b(595.0), b(842.0)).unwrap(),
        }],
    }
}

#[test]
fn empty_document_yields_no_chunks() {
    let doc = doc_from(vec![], 1);
    assert!(chunk(&doc, &ChunkOptions::default()).is_empty());
}

#[test]
fn single_paragraph_yields_one_chunk() {
    let doc = doc_from(vec![block(1, "Hello world", BlockType::Paragraph)], 1);
    let chunks = chunk(&doc, &ChunkOptions::default());
    assert_eq!(chunks.len(), 1);
    assert_eq!(chunks[0].text, "Hello world");
    assert_eq!(chunks[0].token_count, 2);
    assert_eq!(chunks[0].source_pages, vec![1]);
}

#[test]
fn never_splits_a_block_mid_way() {
    let words = "word ".repeat(30);
    let doc = doc_from(
        vec![block(1, &words, BlockType::Paragraph), block(2, &words, BlockType::Paragraph)],
        1,
    );
    let chunks = chunk(&doc, &ChunkOptions { max_tokens: 50, overlap: 0 });
    assert_eq!(chunks.len(), 2);
    for c in &chunks {
        assert!(c.token_count <= 50, "chunk token_count {} > 50", c.token_count);
    }
    for c in &chunks {
        assert_eq!(c.block_ids.len(), 1);
    }
}

#[test]
fn section_path_propagates_to_chunks() {
    let doc = doc_from(
        vec![
            block(1, "Introduction", BlockType::Heading { level: 1 }),
            block(2, "intro body", BlockType::Paragraph),
            block(3, "Related Work", BlockType::Heading { level: 2 }),
            block(4, "rw body", BlockType::Paragraph),
        ],
        1,
    );
    let chunks = chunk(&doc, &ChunkOptions { max_tokens: 100, overlap: 0 });
    assert!(chunks.len() >= 2);
    let last = chunks.last().unwrap();
    assert_eq!(last.section_path, vec!["Introduction".to_string(), "Related Work".to_string()]);
}

#[test]
fn overlap_repeats_tail_words_in_next_chunk() {
    let doc = doc_from(
        vec![
            block(1, "one two three four five six seven eight nine ten", BlockType::Paragraph),
            block(2, "eleven twelve thirteen", BlockType::Paragraph),
            block(3, "fourteen fifteen sixteen", BlockType::Paragraph),
        ],
        1,
    );
    let chunks = chunk(&doc, &ChunkOptions { max_tokens: 10, overlap: 4 });
    assert!(chunks.len() >= 2);
    let second = &chunks[1];
    assert!(
        second.text.contains("seven eight nine ten"),
        "overlap tail missing from second chunk: {}",
        second.text
    );
    assert_eq!(
        second.text,
        "seven eight nine ten\n\neleven twelve thirteen\n\nfourteen fifteen sixteen"
    );
    assert_eq!(second.token_count, 10);
    assert_eq!(second.block_ids, vec![2, 3]);
}

#[test]
fn token_count_distribution_centers_on_budget() {
    let words = "word ".repeat(25);
    let blocks: Vec<Block> = (0..50).map(|i| block(i as u128 + 1, &words, BlockType::Paragraph)).collect();
    let doc = doc_from(blocks, 1);
    let chunks = chunk(&doc, &ChunkOptions { max_tokens: 100, overlap: 0 });
    for c in &chunks {
        assert!(c.token_count > 0);
        assert!(c.token_count <= 100, "chunk overflow {} > 100", c.token_count);
    }
    assert!(chunks.len() >= 12 && chunks.len() <= 14, "got {} chunks", chunks.len());
}

#[test]
fn every_kept_block_appears_once_in_order() {
    let doc = doc_from(
        vec![
            block(1, "alpha beta", BlockType::Paragraph),
            block(2, "   ", BlockType::Paragraph),
            block(3, "", BlockType::Figure),
            block(4, "Head", BlockType::Heading { level: 1 }),
            block(5, "gamma", BlockType::Paragraph),
        ],
        3,
    );
    let chunks = chunk(&doc, &ChunkOptions { max_tokens: 2, overlap: 1 });
    let ids: Vec<u128> = chunks.iter().flat_map(|c| c.block_ids.clone()).collect();
    assert_eq!(ids, vec![1, 3, 5]);
    assert!(chunks.iter().all(|c| !c.block_ids.is_empty()));
    assert!(chunks.iter().all(|c| c.source_pages == vec![3]));
}

#[test]
fn default_options() {
    let o = ChunkOptions::default();
    assert_eq!(o.max_tokens, 512);
    assert_eq!(o.overlap, 64);
    assert_eq!(count_tokens("  a  bb\tccc\n"), 3);
}

#[test]
fn custom_counter_sets_the_budget() {
    let doc = doc_from(
        vec![
            block(1, "aaaa", BlockType::Paragraph),
            block(2, "bbbb", BlockType::Paragraph),
            block(3, "cccc", BlockType::Paragraph),
        ],
        1,
    );
    let opts = ChunkOptions { max_tokens: 8, overlap: 0 };
    let by_chars = chunk_with(&doc, &opts, |t: &str| t.chars().count());
    assert_eq!(by_chars.len(), 2);
    assert_eq!(by_chars[0].token_count, 8);
    assert_eq!(by_chars[0].text, "aaaa\n\nbbbb");
    assert_eq!(by_chars[1].token_count, 4);
    let by_words = chunk_with(&doc, &opts, count_tokens);
    assert_eq!(by_words.len(), 1);
    assert_eq!(by_words[0].token_count, 3);
    assert_eq!(by_words, chunk(&doc, &opts));
}
