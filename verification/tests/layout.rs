use strata::geometry::BBox;
use strata::model::BlockType;
use strata::headings::HeadingClass;
use strata::layout::{
    filter_noise_lines, is_arxiv_watermark, is_page_number, is_stray_char, median_font_size,
    merge_lines_into_paragraphs, words_from_line, Axis, GlyphInput, Line, ParagraphGroup, ParagraphKind,
};

fn b(v: f32) -> u32 {
    v.to_bits()
}

fn glyph(unicode: char, x0: f32, y0: f32, font_size: f32) -> GlyphInput {
    GlyphInput {
        bbox: BBox::new(b(x0), b(y0), b(x0 + 8.0), b(y0 + font_size)).unwrap(),
        font_size: b(font_size),
        unicode,
    }
}

fn line(baseline_y: f32, glyph_indices: Vec<usize>, glyphs: &[GlyphInput]) -> Line {
    let mut bbox = glyphs[glyph_indices[0]].bbox;
    for &idx in &glyph_indices[1..] {
        bbox = bbox.union(glyphs[idx].bbox);
    }
    Line { bbox, baseline_y: b(baseline_y), glyph_indices }
}

fn glyphs_of(text: &str, y: f32, size: f32) -> Vec<GlyphInput> {
    text.chars().enumerate().map(|(i, c)| glyph(c, i as f32 * 10.0, y, size)).collect()
}

#[test]
fn arxiv_watermark_text_and_size() {
    let glyphs = glyphs_of("1706.03762v5", 800.0, 14.0);
    let l = line(800.0, (0..glyphs.len()).collect(), &glyphs);
    assert!(is_arxiv_watermark(&l, &glyphs, true));
    assert!(!is_arxiv_watermark(&l, &glyphs, false));
    let small = glyphs_of("1706.03762v5", 800.0, 9.0);
    let ls = line(800.0, (0..small.len()).collect(), &small);
    assert!(!is_arxiv_watermark(&ls, &small, true));
    let letters = glyphs_of("Introduction", 800.0, 16.0);
    let ll = line(800.0, (0..letters.len()).collect(), &letters);
    assert!(!is_arxiv_watermark(&ll, &letters, true));
}

#[test]
fn stray_characters() {
    let g = vec![glyph('#', 10.0, 100.0, 10.0)];
    assert!(is_stray_char(&line(100.0, vec![0], &g), &g));
    let g = vec![glyph('3', 10.0, 100.0, 10.0)];
    assert!(!is_stray_char(&line(100.0, vec![0], &g), &g));
    let g = vec![glyph('A', 10.0, 100.0, 10.0)];
    assert!(!is_stray_char(&line(100.0, vec![0], &g), &g));
    let g = vec![glyph('#', 10.0, 100.0, 10.0), glyph('#', 20.0, 100.0, 10.0)];
    assert!(!is_stray_char(&line(100.0, vec![0, 1], &g), &g));
    let g = vec![glyph(' ', 0.0, 100.0, 10.0), glyph('*', 10.0, 100.0, 10.0)];
    assert!(is_stray_char(&line(100.0, vec![0, 1], &g), &g));
}

#[test]
fn page_numbers() {
    let g = vec![glyph('1', 290.0, 20.0, 10.0), glyph('5', 298.0, 20.0, 10.0)];
    let l = line(20.0, vec![0, 1], &g);
    assert!(is_page_number(&l, &g, true));
    assert!(!is_page_number(&l, &g, false));
    let g = glyphs_of("Page 15", 20.0, 10.0);
    let l = line(20.0, (0..g.len()).collect(), &g);
    assert!(!is_page_number(&l, &g, true));
}

#[test]
fn median_font_size_ignores_invalid_sizes() {
    let g = vec![
        glyph('a', 0.0, 0.0, 10.0),
        glyph('b', 10.0, 0.0, 14.0),
        glyph('c', 20.0, 0.0, 12.0),
        GlyphInput { bbox: BBox::new(0, 0, 0, 0).unwrap(), font_size: b(f32::NAN), unicode: 'd' },
        GlyphInput { bbox: BBox::new(0, 0, 0, 0).unwrap(), font_size: b(-3.0), unicode: 'e' },
    ];
    let l = Line { bbox: BBox::new(0, 0, 0, 0).unwrap(), baseline_y: 0, glyph_indices: vec![0, 1, 2, 3, 4] };
    assert_eq!(f32::from_bits(median_font_size(&l, &g)), 12.0);
    let none = Line { bbox: BBox::new(0, 0, 0, 0).unwrap(), baseline_y: 0, glyph_indices: vec![3] };
    assert_eq!(median_font_size(&none, &g), 0);
}

#[test]
fn test_filter_noise_lines() {
    let mut all = Vec::new();
    all.extend(vec![glyph('1', 10.0, 800.0, 14.0), glyph('.', 18.0, 800.0, 14.0), glyph('2', 26.0, 800.0, 14.0)]);
    all.extend(glyphs_of("Text", 400.0, 10.0));
    all.push(glyph('*', 10.0, 300.0, 10.0));
    all.push(glyph('3', 290.0, 20.0, 10.0));
    let lines = vec![
        line(800.0, vec![0, 1, 2], &all),
        line(400.0, vec![3, 4, 5, 6], &all),
        line(300.0, vec![7], &all),
        line(20.0, vec![8], &all),
    ];
    let upper = vec![true, false, false, false];
    let bottom = vec![false, false, false, true];
    let filtered = filter_noise_lines(&lines, &all, &upper, &bottom);
    assert_eq!(filtered.len(), 1);
    assert_eq!(f32::from_bits(filtered[0].baseline_y), 400.0);
}

#[test]
fn paragraphs_group_body_lines_and_isolate_headings() {
    let g = glyphs_of("abcdef", 0.0, 10.0);
    let mk = |y: f32| line(y, vec![0], &g);
    let lines = vec![mk(700.0), mk(690.0), mk(600.0), mk(590.0), mk(580.0)];
    let heads = vec![
        HeadingClass::Body,
        HeadingClass::Body,
        HeadingClass::Body,
        HeadingClass::Heading { level: 2 },
        HeadingClass::Body,
    ];
    let joins = vec![false, true, false, true, true];
    let groups = merge_lines_into_paragraphs(&lines, &heads, &joins);
    let sizes: Vec<usize> = groups.iter().map(|gr| gr.lines.len()).collect();
    assert_eq!(sizes, vec![2, 1, 1, 1]);
    assert_eq!(groups[2].kind, ParagraphKind::Heading { level: 2 });
    assert_eq!(groups[0].kind, ParagraphKind::Body);
    assert_eq!(groups[0].bbox, lines[0].bbox.union(lines[1].bbox));
    assert!(merge_lines_into_paragraphs(&vec![], &vec![], &vec![]).is_empty());
    assert_eq!(ParagraphKind::default(), ParagraphKind::Body);
}

#[test]
fn axis_flip() {
    assert_eq!(Axis::X.flip(), Axis::Y);
    assert_eq!(Axis::Y.flip().flip(), Axis::Y);
}

#[test]
fn words_split_where_breaks_say() {
    let glyphs = vec![glyph('a', 0.0, 100.0, 10.0), glyph('b', 9.0, 100.0, 10.0), glyph('c', 60.0, 100.0, 10.0), glyph('d', 69.0, 100.0, 10.0)];
    let l = line(100.0, vec![0, 1, 2, 3], &glyphs);
    let words = words_from_line(&l, &glyphs, &vec![true, false, true, false]);
    assert_eq!(words.len(), 2);
    assert_eq!(words[0].text, "ab");
    assert_eq!(words[0].glyph_indices, vec![0, 1]);
    assert_eq!(words[0].bbox, glyphs[0].bbox.union(glyphs[1].bbox));
    assert_eq!(words[1].text, "cd");
    assert_eq!(words[1].glyph_indices, vec![2, 3]);
    assert_eq!(f32::from_bits(words[1].bbox.x0), 60.0);
    assert_eq!(f32::from_bits(words[1].bbox.x1), 77.0);
}

#[test]
fn no_breaks_keep_one_word_and_empty_line_has_none() {
    let glyphs = vec![glyph('a', 0.0, 100.0, 10.0), glyph('b', 9.0, 100.0, 10.0)];
    let l = line(100.0, vec![0, 1], &glyphs);
    let words = words_from_line(&l, &glyphs, &vec![false, false]);
    assert_eq!(words.len(), 1);
    assert_eq!(words[0].text, "ab");
    let empty = Line { bbox: glyphs[0].bbox, baseline_y: b(100.0), glyph_indices: vec![] };
    assert!(words_from_line(&empty, &glyphs, &vec![]).is_empty());
}

// The position classes and paragraph gaps that the caller measures in
// single precision, for a 595 × 842 pt page.

fn in_upper_third(baseline: f32) -> bool {
    baseline / 842.0 >= 2.0 / 3.0
}

fn in_bottom_band(baseline: f32) -> bool {
    baseline / 842.0 <= 0.05
}

fn joins_for(lines: &[Line]) -> Vec<bool> {
    let height = |l: &Line| f32::from_bits(l.bbox.y1) - f32::from_bits(l.bbox.y0);
    let mut hs: Vec<f32> = lines.iter().map(height).filter(|h| *h > 0.0).collect();
    hs.sort_by(|a, c| a.partial_cmp(c).unwrap());
    let median = if hs.is_empty() { 10.0 } else { hs[hs.len() / 2] };
    (0..lines.len())
        .map(|i| i > 0 && f32::from_bits(lines[i - 1].bbox.y0) - f32::from_bits(lines[i].bbox.y1) <= 0.7 * median)
        .collect()
}

fn version_glyphs(y: f32, size: f32) -> Vec<GlyphInput> {
    "1706.03762v5".chars().enumerate().map(|(i, c)| glyph(c, i as f32 * 10.0, y, size)).collect()
}

#[test]
fn test_is_arxiv_watermark_positive() {
    let glyphs = version_glyphs(800.0, 14.0);
    let l = line(800.0, (0..glyphs.len()).collect(), &glyphs);
    assert!(is_arxiv_watermark(&l, &glyphs, in_upper_third(800.0)));
}

#[test]
fn test_is_arxiv_watermark_negative_low_y() {
    let glyphs = version_glyphs(400.0, 14.0);
    let l = line(400.0, (0..glyphs.len()).collect(), &glyphs);
    assert!(!is_arxiv_watermark(&l, &glyphs, in_upper_third(400.0)));
}

#[test]
fn test_is_arxiv_watermark_negative_small_font() {
    let glyphs = version_glyphs(800.0, 9.0);
    let l = line(800.0, (0..glyphs.len()).collect(), &glyphs);
    assert!(!is_arxiv_watermark(&l, &glyphs, in_upper_third(800.0)));
}

#[test]
fn test_is_arxiv_watermark_negative_letters() {
    let glyphs = glyphs_of("Introduction", 800.0, 16.0);
    let l = line(800.0, (0..glyphs.len()).collect(), &glyphs);
    assert!(!is_arxiv_watermark(&l, &glyphs, in_upper_third(800.0)));
}

#[test]
fn test_is_stray_char_positive() {
    let glyphs = vec![glyph('#', 10.0, 100.0, 10.0)];
    let l = line(100.0, vec![0], &glyphs);
    assert!(is_stray_char(&l, &glyphs));
}

#[test]
fn test_is_stray_char_negative_alphanumeric() {
    let glyphs1 = vec![glyph('3', 10.0, 100.0, 10.0)];
    let l1 = line(100.0, vec![0], &glyphs1);
    assert!(!is_stray_char(&l1, &glyphs1));
    let glyphs2 = vec![glyph('A', 10.0, 100.0, 10.0)];
    let l2 = line(100.0, vec![0], &glyphs2);
    assert!(!is_stray_char(&l2, &glyphs2));
}

#[test]
fn test_is_stray_char_negative_multiple() {
    let glyphs = vec![glyph('#', 10.0, 100.0, 10.0), glyph('#', 20.0, 100.0, 10.0)];
    let l = line(100.0, vec![0, 1], &glyphs);
    assert!(!is_stray_char(&l, &glyphs));
}

#[test]
fn test_is_page_number_positive() {
    let glyphs = vec![glyph('1', 290.0, 20.0, 10.0), glyph('5', 298.0, 20.0, 10.0)];
    let l = line(20.0, vec![0, 1], &glyphs);
    assert!(is_page_number(&l, &glyphs, in_bottom_band(20.0)));
}

#[test]
fn test_is_page_number_negative_high_y() {
    let glyphs = vec![glyph('1', 290.0, 100.0, 10.0), glyph('5', 298.0, 100.0, 10.0)];
    let l = line(100.0, vec![0, 1], &glyphs);
    assert!(!is_page_number(&l, &glyphs, in_bottom_band(100.0)));
}

#[test]
fn test_is_page_number_negative_with_letters() {
    let glyphs = glyphs_of("Page 15", 20.0, 10.0);
    let l = line(20.0, (0..glyphs.len()).collect(), &glyphs);
    assert!(!is_page_number(&l, &glyphs, in_bottom_band(20.0)));
}

fn line_with_bbox(y0: f32, height: f32) -> Line {
    Line { bbox: BBox::new(b(0.0), b(y0), b(100.0), b(y0 + height)).unwrap(), baseline_y: b(y0), glyph_indices: vec![] }
}

#[test]
fn test_empty_lines_returns_empty() {
    assert!(merge_lines_into_paragraphs(&vec![], &vec![], &joins_for(&[])).is_empty());
}

#[test]
fn test_only_headings_are_independent() {
    let lines = vec![line_with_bbox(200.0, 15.0), line_with_bbox(170.0, 12.0)];
    let headings = vec![HeadingClass::Heading { level: 1 }, HeadingClass::Heading { level: 2 }];
    let groups = merge_lines_into_paragraphs(&lines, &headings, &joins_for(&lines));
    assert_eq!(groups.len(), 2);
    assert_eq!(groups[0].kind, ParagraphKind::Heading { level: 1 });
    assert_eq!(groups[1].kind, ParagraphKind::Heading { level: 2 });
}

#[test]
fn test_merge_consecutive_body_lines_small_gap() {
    let lines = vec![line_with_bbox(100.0, 10.0), line_with_bbox(85.0, 10.0)];
    let headings = vec![HeadingClass::Body, HeadingClass::Body];
    let groups = merge_lines_into_paragraphs(&lines, &headings, &joins_for(&lines));
    assert_eq!(groups.len(), 1);
    assert_eq!(groups[0].kind, ParagraphKind::Body);
    assert_eq!(groups[0].lines.len(), 2);
    assert_eq!(groups[0].bbox, BBox::new(b(0.0), b(85.0), b(100.0), b(110.0)).unwrap());
}

#[test]
fn test_split_body_lines_large_gap() {
    let lines = vec![line_with_bbox(100.0, 10.0), line_with_bbox(80.0, 10.0)];
    let headings = vec![HeadingClass::Body, HeadingClass::Body];
    let groups = merge_lines_into_paragraphs(&lines, &headings, &joins_for(&lines));
    assert_eq!(groups.len(), 2);
    assert_eq!(groups[0].kind, ParagraphKind::Body);
    assert_eq!(groups[1].kind, ParagraphKind::Body);
    assert_eq!(groups[0].lines.len(), 1);
    assert_eq!(groups[1].lines.len(), 1);
}

#[test]
fn test_heading_splits_body_paragraphs() {
    let lines = vec![line_with_bbox(120.0, 10.0), line_with_bbox(100.0, 12.0), line_with_bbox(80.0, 10.0)];
    let headings = vec![HeadingClass::Body, HeadingClass::Heading { level: 1 }, HeadingClass::Body];
    let groups = merge_lines_into_paragraphs(&lines, &headings, &joins_for(&lines));
    assert_eq!(groups.len(), 3);
    assert_eq!(groups[0].kind, ParagraphKind::Body);
    assert_eq!(groups[1].kind, ParagraphKind::Heading { level: 1 });
    assert_eq!(groups[2].kind, ParagraphKind::Body);
}

// Word splitting on the scenes of the line-clustering tests: the gap rule
// (0.3 × average glyph width) is measured here.

fn breaks_for(l: &Line, glyphs: &[GlyphInput]) -> Vec<bool> {
    let w = |i: usize| f32::from_bits(glyphs[i].bbox.x1) - f32::from_bits(glyphs[i].bbox.x0);
    let avg = l.glyph_indices.iter().map(|&i| w(i)).sum::<f32>() / l.glyph_indices.len() as f32;
    (0..l.glyph_indices.len())
        .map(|k| {
            k > 0 && f32::from_bits(glyphs[l.glyph_indices[k]].bbox.x0)
                - f32::from_bits(glyphs[l.glyph_indices[k - 1]].bbox.x1)
                > 0.3 * avg
        })
        .collect()
}

fn glyph_w(unicode: char, x0: f32, y0: f32, w: f32, size: f32) -> GlyphInput {
    GlyphInput { bbox: BBox::new(b(x0), b(y0), b(x0 + w), b(y0 + size)).unwrap(), font_size: b(size), unicode }
}

#[test]
fn words_split_on_large_gap() {
    let glyphs = vec![
        glyph_w('a', 0.0, 100.0, 8.0, 10.0),
        glyph_w('b', 9.0, 100.0, 8.0, 10.0),
        glyph_w('c', 60.0, 100.0, 8.0, 10.0),
        glyph_w('d', 69.0, 100.0, 8.0, 10.0),
    ];
    let l = line(100.0, vec![0, 1, 2, 3], &glyphs);
    let words = words_from_line(&l, &glyphs, &breaks_for(&l, &glyphs));
    assert_eq!(words.len(), 2);
    assert_eq!(words[0].text, "ab");
    assert_eq!(words[1].text, "cd");
}

#[test]
fn small_gap_keeps_single_word() {
    let glyphs = vec![glyph_w('a', 0.0, 100.0, 8.0, 10.0), glyph_w('b', 9.0, 100.0, 8.0, 10.0)];
    let l = line(100.0, vec![0, 1], &glyphs);
    let words = words_from_line(&l, &glyphs, &breaks_for(&l, &glyphs));
    assert_eq!(words.len(), 1);
    assert_eq!(words[0].text, "ab");
}

#[test]
fn paragraph_blocks_join_normalize_and_skip_empty() {
    let bb = |y: f32| BBox::new(b(0.0), b(y), b(100.0), b(y + 10.0)).unwrap();
    let groups = vec![
        ParagraphGroup { lines: vec![], bbox: bb(0.0), kind: ParagraphKind::Heading { level: 2 } },
        ParagraphGroup { lines: vec![], bbox: bb(20.0), kind: ParagraphKind::Body },
        ParagraphGroup { lines: vec![], bbox: bb(40.0), kind: ParagraphKind::Body },
    ];
    let words = vec![
        vec!["Related".to_string(), " Work ".to_string()],
        vec!["  ".to_string(), "\t".to_string()],
        vec!["j".to_string(), "o".to_string(), "u".to_string(), "r".to_string()],
    ];
    let parts = strata::pipeline::paragraph_blocks(&groups, &words);
    assert_eq!(parts.len(), 2);
    assert_eq!(parts[0].0, BlockType::Heading { level: 2 });
    assert_eq!(parts[0].1, bb(0.0));
    assert_eq!(parts[0].2, "Related Work");
    assert_eq!(parts[1].0, BlockType::Paragraph);
    assert_eq!(parts[1].1, bb(40.0));
    assert_eq!(parts[1].2, "jour");
}
