//! Page-layout logic that needs no arithmetic on coordinates: axes and
//! script directions, glyphs and lines, noise-line detection (arXiv
//! watermarks, stray characters, page numbers), the splitting of lines
//! into words and the grouping of lines into paragraphs.
//!
//! Decisions that rest on single-precision arithmetic on coordinates
//! (relative positions on the page, horizontal and vertical gaps) are
//! taken by the caller and handed in as booleans.

use vstd::prelude::*;
use crate::bits::{self, spec_lt, spec_nonfinite};
use crate::chars::{is_alphanumeric, is_whitespace, is_ws, unicode_alphanumeric};
use crate::geometry::BBox;
use crate::headings::HeadingClass;
use crate::runtime::{sort_u32, sorted_u32};
use crate::strings::push_char;

verus! {

/// Cartesian axis (PDF coordinates: +Y points up).
#[derive(Copy, Clone, Debug, PartialEq, Eq, Structural)]
pub enum Axis {
    X,
    Y,
}

impl Axis {
    /// The other axis.
    pub fn flip(self) -> (r: Axis)
        ensures
            r == match self {
                Axis::X => Axis::Y,
                Axis::Y => Axis::X,
            },
    {
        match self {
            Axis::X => Axis::Y,
            Axis::Y => Axis::X,
        }
    }
}

/// Flipping twice gives the axis back.
pub proof fn lemma_flip_involutive(a: Axis)
    ensures
        match a {
            Axis::X => Axis::X,
            Axis::Y => Axis::Y,
        } == a,
        (match (match a {
            Axis::X => Axis::Y,
            Axis::Y => Axis::X,
        }) {
            Axis::X => Axis::Y,
            Axis::Y => Axis::X,
        }) == a,
{
}

/// Writing direction used to order siblings on the X axis.
#[derive(Copy, Clone, Debug, PartialEq, Eq, Structural)]
pub enum ScriptDirection {
    Ltr,
    Rtl,
}

/// One glyph: box, font size (binary32 bit pattern) and code point.
#[derive(Copy, Clone, Debug, PartialEq, Eq)]
pub struct GlyphInput {
    pub bbox: BBox,
    pub font_size: u32,
    pub unicode: char,
}

/// A run of glyphs on one baseline.
#[derive(Clone, Debug, PartialEq, Eq)]
pub struct Line {
    pub bbox: BBox,
    /// Baseline, as a binary32 bit pattern.
    pub baseline_y: u32,
    /// Indices into the page's glyphs, left to right.
    pub glyph_indices: Vec<usize>,
}

/// Mathematical view of a [`Line`].
pub struct LineV {
    pub bbox: BBox,
    pub baseline_y: u32,
    pub glyph_indices: Seq<usize>,
}

impl View for Line {
    type V = LineV;

    open spec fn view(&self) -> LineV {
        LineV { bbox: self.bbox, baseline_y: self.baseline_y, glyph_indices: self.glyph_indices@ }
    }
}

pub open spec fn line_views(ls: Seq<Line>) -> Seq<LineV> {
    ls.map_values(|l: Line| l@)
}

fn copy_line(l: &Line) -> (r: Line)
    ensures
        r@ == l@,
{
    let mut idx: Vec<usize> = Vec::new();
    for i in 0..l.glyph_indices.len()
        invariant
            idx@ == l.glyph_indices@.take(i as int),
    {
        idx.push(l.glyph_indices[i]);
        assert(idx@ =~= l.glyph_indices@.take(i + 1));
    }
    assert(l.glyph_indices@.take(l.glyph_indices@.len() as int) =~= l.glyph_indices@);
    Line { bbox: l.bbox, baseline_y: l.baseline_y, glyph_indices: idx }
}

/// Every glyph index of the line points into `glyphs`.
pub open spec fn indices_ok(idx: Seq<usize>, n: nat) -> bool {
    forall|k: int| 0 <= k < idx.len() ==> #[trigger] idx[k] < n
}

/// The non-whitespace characters of a line.
pub open spec fn visible(idx: Seq<usize>, glyphs: Seq<GlyphInput>) -> Seq<char>
    decreases idx.len(),
{
    if idx.len() == 0 {
        seq![]
    } else {
        let c = glyphs[idx.last() as int].unicode;
        if is_ws(c) {
            visible(idx.drop_last(), glyphs)
        } else {
            visible(idx.drop_last(), glyphs).push(c)
        }
    }
}

/// The positive, finite font sizes of a line's glyphs.
pub open spec fn sizes(idx: Seq<usize>, glyphs: Seq<GlyphInput>) -> Seq<u32>
    decreases idx.len(),
{
    if idx.len() == 0 {
        seq![]
    } else {
        let s = glyphs[idx.last() as int].font_size;
        if !spec_nonfinite(s) && spec_lt(bits::ZERO, s) {
            sizes(idx.drop_last(), glyphs).push(s)
        } else {
            sizes(idx.drop_last(), glyphs)
        }
    }
}

/// Median of positive finite sizes (binary32 bit patterns, whose integer
/// order is their numeric order); 0.0 when there is none.
pub open spec fn median_of(s: Seq<u32>) -> u32 {
    if s.len() == 0 {
        bits::ZERO
    } else {
        sorted_u32(s)[(s.len() / 2) as int]
    }
}

/// Text of an arXiv version stamp: digits, dots and `v`/`V` only.
pub open spec fn version_text(t: Seq<char>) -> bool {
    t.len() > 0 && forall|i: int|
        0 <= i < t.len() ==> ('0' <= #[trigger] t[i] <= '9' || t[i] == '.' || t[i] == 'v' || t[i]
            == 'V')
}

/// Text of a page number: ASCII digits only.
pub open spec fn page_number_text(t: Seq<char>) -> bool {
    t.len() > 0 && forall|i: int| 0 <= i < t.len() ==> '0' <= #[trigger] t[i] <= '9'
}

/// A lone character that is not alphanumeric.
pub open spec fn stray_text(t: Seq<char>) -> bool {
    t.len() == 1 && !unicode_alphanumeric(t[0])
}

/// Font size 12.0 as a binary32 bit pattern.
pub const WATERMARK_MIN_SIZE: u32 = 0x4140_0000;

pub open spec fn watermark_spec(line: LineV, glyphs: Seq<GlyphInput>, in_upper_third: bool) -> bool {
    in_upper_third && version_text(visible(line.glyph_indices, glyphs)) && !spec_lt(
        median_of(sizes(line.glyph_indices, glyphs)),
        WATERMARK_MIN_SIZE,
    )
}

pub open spec fn page_number_spec(line: LineV, glyphs: Seq<GlyphInput>, in_bottom_band: bool) -> bool {
    in_bottom_band && page_number_text(visible(line.glyph_indices, glyphs))
}

/// The non-whitespace characters of `line`.
pub fn visible_text(line: &Line, glyphs: &Vec<GlyphInput>) -> (r: Vec<char>)
    requires
        indices_ok(line.glyph_indices@, glyphs@.len()),
    ensures
        r@ == visible(line.glyph_indices@, glyphs@),
{
    let mut out: Vec<char> = Vec::new();
    for k in 0..line.glyph_indices.len()
        invariant
            indices_ok(line.glyph_indices@, glyphs@.len()),
            out@ == visible(line.glyph_indices@.take(k as int), glyphs@),
    {
        proof {
            assert(line.glyph_indices@.take(k + 1).drop_last() =~= line.glyph_indices@.take(k as int));
        }
        let i = line.glyph_indices[k];
        let c = glyphs[i].unicode;
        if !is_whitespace(c) {
            out.push(c);
        }
    }
    assert(line.glyph_indices@.take(line.glyph_indices@.len() as int) =~= line.glyph_indices@);
    out
}

/// Median font size of a line's glyphs (bit pattern; 0.0 when none is
/// positive and finite).
pub fn median_font_size(line: &Line, glyphs: &Vec<GlyphInput>) -> (r: u32)
    requires
        indices_ok(line.glyph_indices@, glyphs@.len()),
    ensures
        r == median_of(sizes(line.glyph_indices@, glyphs@)),
{
    let mut s: Vec<u32> = Vec::new();
    for k in 0..line.glyph_indices.len()
        invariant
            indices_ok(line.glyph_indices@, glyphs@.len()),
            s@ == sizes(line.glyph_indices@.take(k as int), glyphs@),
    {
        proof {
            assert(line.glyph_indices@.take(k + 1).drop_last() =~= line.glyph_indices@.take(k as int));
        }
        let v = glyphs[line.glyph_indices[k]].font_size;
        if bits::is_finite(v) && bits::lt(bits::ZERO, v) {
            s.push(v);
        }
    }
    assert(line.glyph_indices@.take(line.glyph_indices@.len() as int) =~= line.glyph_indices@);
    if s.len() == 0 {
        return bits::ZERO;
    }
    let sorted = sort_u32(&s);
    proof {
        lemma_sorted_u32_len(s@);
    }
    sorted[s.len() / 2]
}

proof fn lemma_sorted_u32_len(s: Seq<u32>)
    ensures
        sorted_u32(s).len() == s.len(),
    decreases s.len(),
{
    if s.len() > 0 {
        lemma_sorted_u32_len(s.drop_last());
        lemma_insert_pos_le(sorted_u32(s.drop_last()), s.last());
    }
}

proof fn lemma_insert_pos_le(s: Seq<u32>, x: u32)
    ensures
        crate::runtime::insert_pos_u32(s, x) <= s.len(),
    decreases s.len(),
{
    if s.len() > 0 && !(x <= s[0]) {
        lemma_insert_pos_le(s.drop_first(), x);
    }
}

/// An arXiv version stamp: placed in the upper third of the page (decided
/// by the caller), only digits, dots and `v`, set in 12 pt or more.
pub fn is_arxiv_watermark(line: &Line, glyphs: &Vec<GlyphInput>, in_upper_third: bool) -> (r: bool)
    requires
        indices_ok(line.glyph_indices@, glyphs@.len()),
    ensures
        r == watermark_spec(line@, glyphs@, in_upper_third),
{
    if !in_upper_third {
        return false;
    }
    let t = visible_text(line, glyphs);
    if t.len() == 0 {
        return false;
    }
    let mut ok = true;
    for i in 0..t.len()
        invariant
            ok == (forall|k: int|
                0 <= k < i ==> ('0' <= #[trigger] t@[k] <= '9' || t@[k] == '.' || t@[k] == 'v' || t@[k]
                    == 'V')),
    {
        let c = t[i];
        if !(('0' <= c && c <= '9') || c == '.' || c == 'v' || c == 'V') {
            ok = false;
        }
    }
    if !ok {
        return false;
    }
    let m = median_font_size(line, glyphs);
    !bits::lt(m, WATERMARK_MIN_SIZE)
}

/// A line that holds a single non-alphanumeric character.
pub fn is_stray_char(line: &Line, glyphs: &Vec<GlyphInput>) -> (r: bool)
    requires
        indices_ok(line.glyph_indices@, glyphs@.len()),
    ensures
        r == stray_text(visible(line.glyph_indices@, glyphs@)),
{
    let t = visible_text(line, glyphs);
    if t.len() != 1 {
        return false;
    }
    !is_alphanumeric(t[0])
}

/// A page number: in the bottom band of the page (decided by the caller)
/// and ASCII digits only.
pub fn is_page_number(line: &Line, glyphs: &Vec<GlyphInput>, in_bottom_band: bool) -> (r: bool)
    requires
        indices_ok(line.glyph_indices@, glyphs@.len()),
    ensures
        r == page_number_spec(line@, glyphs@, in_bottom_band),
{
    if !in_bottom_band {
        return false;
    }
    let t = visible_text(line, glyphs);
    if t.len() == 0 {
        return false;
    }
    let mut ok = true;
    for i in 0..t.len()
        invariant
            ok == (forall|k: int| 0 <= k < i ==> '0' <= #[trigger] t@[k] <= '9'),
    {
        let c = t[i];
        if !('0' <= c && c <= '9') {
            ok = false;
        }
    }
    ok
}

pub open spec fn is_noise(line: LineV, glyphs: Seq<GlyphInput>, upper: bool, bottom: bool) -> bool {
    watermark_spec(line, glyphs, upper) || stray_text(visible(line.glyph_indices, glyphs))
        || page_number_spec(line, glyphs, bottom)
}

/// The lines that are not noise, in order.
pub open spec fn kept_lines(ls: Seq<LineV>, glyphs: Seq<GlyphInput>, upper: Seq<bool>, bottom: Seq<bool>) -> Seq<LineV>
    decreases ls.len(),
{
    if ls.len() == 0 {
        seq![]
    } else {
        let i = ls.len() - 1;
        let r = kept_lines(ls.drop_last(), glyphs, upper, bottom);
        if is_noise(ls.last(), glyphs, upper[i], bottom[i]) {
            r
        } else {
            r.push(ls.last())
        }
    }
}

/// Drops watermarks, stray characters and page numbers; `in_upper_third`
/// and `in_bottom_band` give each line's position class.
pub fn filter_noise_lines(
    lines: &Vec<Line>,
    glyphs: &Vec<GlyphInput>,
    in_upper_third: &Vec<bool>,
    in_bottom_band: &Vec<bool>,
) -> (r: Vec<Line>)
    requires
        in_upper_third@.len() == lines@.len(),
        in_bottom_band@.len() == lines@.len(),
        forall|i: int| 0 <= i < lines@.len() ==> indices_ok(#[trigger] lines@[i].glyph_indices@, glyphs@.len()),
    ensures
        line_views(r@) == kept_lines(line_views(lines@), glyphs@, in_upper_third@, in_bottom_band@),
{
    let mut out: Vec<Line> = Vec::new();
    let ghost lv = line_views(lines@);
    for i in 0..lines.len()
        invariant
            lv == line_views(lines@),
            in_upper_third@.len() == lines@.len(),
            in_bottom_band@.len() == lines@.len(),
            forall|j: int| 0 <= j < lines@.len() ==> indices_ok(#[trigger] lines@[j].glyph_indices@, glyphs@.len()),
            line_views(out@) == kept_lines(lv.take(i as int), glyphs@, in_upper_third@, in_bottom_band@),
    {
        let line = &lines[i];
        proof {
            assert(lv.take(i + 1).drop_last() =~= lv.take(i as int));
            assert(lv.take(i + 1).last() == line@);
            assert(indices_ok(lines@[i as int].glyph_indices@, glyphs@.len()));
        }
        let noise = is_arxiv_watermark(line, glyphs, in_upper_third[i]) || is_stray_char(line, glyphs)
            || is_page_number(line, glyphs, in_bottom_band[i]);
        if !noise {
            let ghost before = line_views(out@);
            let c = copy_line(line);
            out.push(c);
            assert(line_views(out@) =~= before.push(line@));
        }
    }
    assert(lv.take(lines@.len() as int) =~= lv);
    out
}

// ---------------------------------------------------------------------------
// Words
// ---------------------------------------------------------------------------

/// A run of glyphs of one line not split by a wide horizontal gap.
#[derive(Clone, Debug, PartialEq, Eq)]
pub struct Word {
    pub bbox: BBox,
    /// Indices into the page's glyphs, left to right.
    pub glyph_indices: Vec<usize>,
    /// The glyphs' characters, in order.
    pub text: String,
}

/// Mathematical view of a [`Word`].
pub struct WordV {
    pub bbox: BBox,
    pub glyph_indices: Seq<usize>,
    pub text: Seq<char>,
}

impl View for Word {
    type V = WordV;

    open spec fn view(&self) -> WordV {
        WordV { bbox: self.bbox, glyph_indices: self.glyph_indices@, text: self.text@ }
    }
}

pub open spec fn word_views(ws: Seq<Word>) -> Seq<WordV> {
    ws.map_values(|w: Word| w@)
}

/// The word that glyph `g` (at index `i`) opens.
pub open spec fn word_start(i: usize, g: GlyphInput) -> WordV {
    WordV { bbox: g.bbox, glyph_indices: seq![i], text: seq![g.unicode] }
}

/// `w` with glyph `g` (at index `i`) appended.
pub open spec fn word_extend(w: WordV, i: usize, g: GlyphInput) -> WordV {
    WordV {
        bbox: w.bbox.spec_union(g.bbox),
        glyph_indices: w.glyph_indices.push(i),
        text: w.text.push(g.unicode),
    }
}

/// Closed words and the open word after the first glyphs of a line: the
/// first glyph opens a word, and every later glyph `k` closes the open
/// word and opens a new one when `breaks[k]`, else joins the open word.
pub open spec fn word_state(idx: Seq<usize>, glyphs: Seq<GlyphInput>, breaks: Seq<bool>) -> (Seq<WordV>, Option<WordV>)
    decreases idx.len(),
{
    if idx.len() == 0 {
        (seq![], None)
    } else {
        let k = idx.len() - 1;
        let st = word_state(idx.drop_last(), glyphs, breaks);
        let i = idx[k];
        let g = glyphs[i as int];
        match st.1 {
            Some(w) => if breaks[k] {
                (st.0.push(w), Some(word_start(i, g)))
            } else {
                (st.0, Some(word_extend(w, i, g)))
            },
            None => (st.0, Some(word_start(i, g))),
        }
    }
}

/// The words of a line whose glyph indices are `idx`.
pub open spec fn line_words(idx: Seq<usize>, glyphs: Seq<GlyphInput>, breaks: Seq<bool>) -> Seq<WordV> {
    let st = word_state(idx, glyphs, breaks);
    match st.1 {
        Some(w) => st.0.push(w),
        None => st.0,
    }
}

pub open spec fn opt_word_view(w: Option<Word>) -> Option<WordV> {
    match w {
        Some(x) => Some(x@),
        None => None,
    }
}

fn start_word(i: usize, g: GlyphInput) -> (r: Word)
    ensures
        r@ == word_start(i, g),
{
    let mut glyph_indices: Vec<usize> = Vec::new();
    glyph_indices.push(i);
    let mut text = String::new();
    push_char(&mut text, g.unicode);
    assert(glyph_indices@ =~= seq![i]);
    assert(text@ =~= seq![g.unicode]);
    Word { bbox: g.bbox, glyph_indices, text }
}

fn extend_word(w: Word, i: usize, g: GlyphInput) -> (r: Word)
    ensures
        r@ == word_extend(w@, i, g),
{
    let mut w = w;
    w.glyph_indices.push(i);
    w.bbox = w.bbox.union(g.bbox);
    push_char(&mut w.text, g.unicode);
    w
}

/// Splits a line (glyphs left to right) into words: a new word starts at
/// every glyph `k > 0` with `breaks[k]` (its gap to the glyph before it
/// exceeds 30 % of the line's average glyph width).
pub fn words_from_line(line: &Line, glyphs: &Vec<GlyphInput>, breaks: &Vec<bool>) -> (r: Vec<Word>)
    requires
        indices_ok(line.glyph_indices@, glyphs@.len()),
        breaks@.len() >= line.glyph_indices@.len(),
    ensures
        word_views(r@) == line_words(line.glyph_indices@, glyphs@, breaks@),
{
    let ghost idx = line.glyph_indices@;
    let mut words: Vec<Word> = Vec::new();
    let mut cur: Option<Word> = None;
    for k in 0..line.glyph_indices.len()
        invariant
            idx == line.glyph_indices@,
            indices_ok(idx, glyphs@.len()),
            breaks@.len() >= idx.len(),
            word_views(words@) == word_state(idx.take(k as int), glyphs@, breaks@).0,
            opt_word_view(cur) == word_state(idx.take(k as int), glyphs@, breaks@).1,
    {
        proof {
            assert(idx.take(k + 1).drop_last() =~= idx.take(k as int));
            assert(idx.take(k + 1)[k as int] == idx[k as int]);
        }
        let i = line.glyph_indices[k];
        let g = glyphs[i];
        match cur {
            Some(w) => {
                if breaks[k] {
                    let ghost before = word_views(words@);
                    let ghost wv = w@;
                    words.push(w);
                    assert(word_views(words@) =~= before.push(wv));
                    cur = Some(start_word(i, g));
                } else {
                    cur = Some(extend_word(w, i, g));
                }
            },
            None => {
                cur = Some(start_word(i, g));
            },
        }
    }
    assert(idx.take(idx.len() as int) =~= idx);
    match cur {
        Some(w) => {
            let ghost before = word_views(words@);
            let ghost wv = w@;
            words.push(w);
            assert(word_views(words@) =~= before.push(wv));
        },
        None => {},
    }
    words
}

/// All glyph indices of some words, word after word.
pub open spec fn flat_indices(ws: Seq<WordV>) -> Seq<usize>
    decreases ws.len(),
{
    if ws.len() == 0 {
        seq![]
    } else {
        flat_indices(ws.drop_last()) + ws.last().glyph_indices
    }
}

/// A word's text is the characters of its glyphs, and it has at least one.
pub open spec fn word_ok(w: WordV, glyphs: Seq<GlyphInput>) -> bool {
    &&& w.glyph_indices.len() > 0
    &&& w.text.len() == w.glyph_indices.len()
    &&& forall|j: int| 0 <= j < w.text.len() ==> #[trigger] w.text[j] == glyphs[w.glyph_indices[j] as int].unicode
}

proof fn lemma_flat_indices_push(ws: Seq<WordV>, w: WordV)
    ensures
        flat_indices(ws.push(w)) == flat_indices(ws) + w.glyph_indices,
{
    assert(ws.push(w).drop_last() =~= ws);
}

proof fn lemma_word_state_partition(idx: Seq<usize>, glyphs: Seq<GlyphInput>, breaks: Seq<bool>)
    ensures
        flat_indices(word_state(idx, glyphs, breaks).0) + match word_state(idx, glyphs, breaks).1 {
            Some(w) => w.glyph_indices,
            None => seq![],
        } == idx,
        forall|k: int|
            0 <= k < word_state(idx, glyphs, breaks).0.len() ==> word_ok(
                #[trigger] word_state(idx, glyphs, breaks).0[k],
                glyphs,
            ),
        match word_state(idx, glyphs, breaks).1 {
            Some(w) => word_ok(w, glyphs),
            None => idx.len() == 0,
        },
    decreases idx.len(),
{
    if idx.len() > 0 {
        let d = idx.drop_last();
        lemma_word_state_partition(d, glyphs, breaks);
        let st = word_state(d, glyphs, breaks);
        let k = idx.len() - 1;
        let i = idx[k];
        let g = glyphs[i as int];
        assert(d.push(i) =~= idx);
        match st.1 {
            Some(w) => {
                if breaks[k] {
                    lemma_flat_indices_push(st.0, w);
                    assert(flat_indices(st.0.push(w)) + seq![i] =~= idx);
                    let out = st.0.push(w);
                    assert forall|j: int| 0 <= j < out.len() implies word_ok(#[trigger] out[j], glyphs) by {
                        if j < st.0.len() {
                            assert(out[j] == st.0[j]);
                        }
                    }
                    assert(word_ok(word_start(i, g), glyphs));
                } else {
                    assert(flat_indices(st.0) + w.glyph_indices.push(i) =~= idx);
                    let e = word_extend(w, i, g);
                    assert forall|j: int| 0 <= j < e.text.len() implies #[trigger] e.text[j]
                        == glyphs[e.glyph_indices[j] as int].unicode by {
                        if j < w.text.len() {
                            assert(e.text[j] == w.text[j]);
                            assert(e.glyph_indices[j] == w.glyph_indices[j]);
                        }
                    }
                }
            },
            None => {
                assert(flat_indices(st.0) + seq![i] =~= idx);
                assert(word_ok(word_start(i, g), glyphs));
            },
        }
    }
}

/// Splitting loses, duplicates and reorders no glyph: the words' glyph
/// indices, in order, are the line's; every word has at least one glyph
/// and its text is its glyphs' characters.
pub proof fn lemma_words_partition_line(idx: Seq<usize>, glyphs: Seq<GlyphInput>, breaks: Seq<bool>)
    ensures
        flat_indices(line_words(idx, glyphs, breaks)) == idx,
        forall|k: int|
            0 <= k < line_words(idx, glyphs, breaks).len() ==> word_ok(
                #[trigger] line_words(idx, glyphs, breaks)[k],
                glyphs,
            ),
{
    lemma_word_state_partition(idx, glyphs, breaks);
    let st = word_state(idx, glyphs, breaks);
    match st.1 {
        Some(w) => {
            lemma_flat_indices_push(st.0, w);
            let out = st.0.push(w);
            assert forall|j: int| 0 <= j < out.len() implies word_ok(#[trigger] out[j], glyphs) by {
                if j < st.0.len() {
                    assert(out[j] == st.0[j]);
                }
            }
        },
        None => {
            assert(flat_indices(st.0) + Seq::<usize>::empty() =~= flat_indices(st.0));
        },
    }
}

// ---------------------------------------------------------------------------
// Paragraphs
// ---------------------------------------------------------------------------

/// Kind of a paragraph group.
#[derive(Copy, Clone, Debug, PartialEq, Eq, Structural)]
pub enum ParagraphKind {
    Body,
    Heading { level: u8 },
}

impl ParagraphKind {
    pub fn default() -> (r: ParagraphKind)
        ensures
            r == ParagraphKind::Body,
    {
        ParagraphKind::Body
    }
}

/// Consecutive lines forming one paragraph or one heading.
#[derive(Clone, Debug, PartialEq, Eq)]
pub struct ParagraphGroup {
    pub lines: Vec<Line>,
    pub bbox: BBox,
    pub kind: ParagraphKind,
}

/// Mathematical view of a [`ParagraphGroup`].
pub struct GroupV {
    pub lines: Seq<LineV>,
    pub bbox: BBox,
    pub kind: ParagraphKind,
}

impl View for ParagraphGroup {
    type V = GroupV;

    open spec fn view(&self) -> GroupV {
        GroupV { lines: line_views(self.lines@), bbox: self.bbox, kind: self.kind }
    }
}

pub open spec fn group_views(gs: Seq<ParagraphGroup>) -> Seq<GroupV> {
    gs.map_values(|g: ParagraphGroup| g@)
}

pub open spec fn class_at(heads: Seq<HeadingClass>, i: int) -> HeadingClass {
    if 0 <= i < heads.len() { heads[i] } else { HeadingClass::Body }
}

pub open spec fn single(l: LineV, kind: ParagraphKind) -> GroupV {
    GroupV { lines: seq![l], bbox: l.bbox, kind }
}

/// Closed groups and the open body group after the first lines: a
/// heading closes the open group and forms a group of its own; a body
/// line joins the open group when `joins` says its gap to the previous
/// line is small enough, else it opens a new one.
pub open spec fn para_state(ls: Seq<LineV>, heads: Seq<HeadingClass>, joins: Seq<bool>) -> (Seq<GroupV>, Option<GroupV>)
    decreases ls.len(),
{
    if ls.len() == 0 {
        (seq![], None)
    } else {
        let i = ls.len() - 1;
        let l = ls.last();
        let st = para_state(ls.drop_last(), heads, joins);
        match class_at(heads, i) {
            HeadingClass::Heading { level } => {
                let closed = match st.1 {
                    Some(g) => st.0.push(g),
                    None => st.0,
                };
                (closed.push(single(l, ParagraphKind::Heading { level })), None)
            },
            HeadingClass::Body => match st.1 {
                Some(g) => if joins[i] {
                    (st.0, Some(GroupV { lines: g.lines.push(l), bbox: g.bbox.spec_union(l.bbox), kind: g.kind }))
                } else {
                    (st.0.push(g), Some(single(l, ParagraphKind::Body)))
                },
                None => (st.0, Some(single(l, ParagraphKind::Body))),
            },
        }
    }
}

/// The paragraph groups of the lines.
pub open spec fn paragraphs(ls: Seq<LineV>, heads: Seq<HeadingClass>, joins: Seq<bool>) -> Seq<GroupV> {
    let st = para_state(ls, heads, joins);
    match st.1 {
        Some(g) => st.0.push(g),
        None => st.0,
    }
}

fn single_group(line: &Line, kind: ParagraphKind) -> (r: ParagraphGroup)
    ensures
        r@ == single(line@, kind),
{
    let mut lines: Vec<Line> = Vec::new();
    lines.push(copy_line(line));
    assert(line_views(lines@) =~= seq![line@]);
    ParagraphGroup { lines, bbox: line.bbox, kind }
}

/// Groups consecutive lines into paragraphs.  Headings (by `headings[i]`,
/// body when missing) always stand alone; a body line joins the open
/// paragraph when `joins[i]` holds (its vertical gap to the previous line
/// is at most 70 % of the median line height).
pub fn merge_lines_into_paragraphs(
    lines: &Vec<Line>,
    headings: &Vec<HeadingClass>,
    joins: &Vec<bool>,
) -> (r: Vec<ParagraphGroup>)
    requires
        joins@.len() >= lines@.len(),
    ensures
        group_views(r@) == paragraphs(line_views(lines@), headings@, joins@),
{
    let ghost lv = line_views(lines@);
    let mut groups: Vec<ParagraphGroup> = Vec::new();
    let mut active: Option<ParagraphGroup> = None;
    for i in 0..lines.len()
        invariant
            lv == line_views(lines@),
            joins@.len() >= lines@.len(),
            ({
                let st = para_state(lv.take(i as int), headings@, joins@);
                &&& group_views(groups@) == st.0
                &&& match active {
                    Some(g) => st.1 == Some(g@),
                    None => st.1 is None,
                }
            }),
    {
        let line = &lines[i];
        proof {
            assert(lv.take(i + 1).drop_last() =~= lv.take(i as int));
            assert(lv.take(i + 1).last() == line@);
        }
        let class = if i < headings.len() { headings[i] } else { HeadingClass::Body };
        let ghost g0 = group_views(groups@);
        match class {
            HeadingClass::Heading { level } => {
                match active {
                    Some(g) => {
                        let ghost gv = g@;
                        groups.push(g);
                        assert(group_views(groups@) =~= g0.push(gv));
                    },
                    None => {},
                }
                active = None;
                let ghost g1 = group_views(groups@);
                let h = single_group(line, ParagraphKind::Heading { level });
                let ghost hv = h@;
                groups.push(h);
                assert(group_views(groups@) =~= g1.push(hv));
            },
            HeadingClass::Body => {
                let taken = active;
                active = None;
                match taken {
                    Some(mut g) => {
                        if joins[i] {
                            let ghost old_lines = line_views(g.lines@);
                            g.lines.push(copy_line(line));
                            assert(line_views(g.lines@) =~= old_lines.push(line@));
                            g.bbox = g.bbox.union(line.bbox);
                            active = Some(g);
                        } else {
                            let ghost gv = g@;
                            groups.push(g);
                            assert(group_views(groups@) =~= g0.push(gv));
                            active = Some(single_group(line, ParagraphKind::Body));
                        }
                    },
                    None => {
                        active = Some(single_group(line, ParagraphKind::Body));
                    },
                }
            },
        }
    }
    assert(lv.take(lines@.len() as int) =~= lv);
    match active {
        Some(g) => {
            let ghost g0 = group_views(groups@);
            let ghost gv = g@;
            groups.push(g);
            assert(group_views(groups@) =~= g0.push(gv));
        },
        None => {},
    }
    groups
}

/// All lines of some groups, group after group.
pub open spec fn flat_lines(gs: Seq<GroupV>) -> Seq<LineV>
    decreases gs.len(),
{
    if gs.len() == 0 {
        seq![]
    } else {
        flat_lines(gs.drop_last()) + gs.last().lines
    }
}

proof fn lemma_flat_push(gs: Seq<GroupV>, g: GroupV)
    ensures
        flat_lines(gs.push(g)) == flat_lines(gs) + g.lines,
{
    assert(gs.push(g).drop_last() =~= gs);
}

proof fn lemma_para_state_partition(ls: Seq<LineV>, heads: Seq<HeadingClass>, joins: Seq<bool>)
    ensures
        flat_lines(para_state(ls, heads, joins).0) + match para_state(ls, heads, joins).1 {
            Some(g) => g.lines,
            None => seq![],
        } == ls,
        forall|k: int|
            0 <= k < para_state(ls, heads, joins).0.len() ==> (#[trigger] para_state(ls, heads, joins).0[k]).kind
                is Heading ==> para_state(ls, heads, joins).0[k].lines.len() == 1,
        match para_state(ls, heads, joins).1 {
            Some(g) => g.kind == ParagraphKind::Body,
            None => true,
        },
    decreases ls.len(),
{
    if ls.len() > 0 {
        let d = ls.drop_last();
        lemma_para_state_partition(d, heads, joins);
        let st = para_state(d, heads, joins);
        let i = ls.len() - 1;
        let l = ls.last();
        let prev: Seq<LineV> = match st.1 {
            Some(g) => g.lines,
            None => seq![],
        };
        assert(flat_lines(st.0) + prev == d);
        assert(d.push(l) =~= ls);
        match class_at(heads, i) {
            HeadingClass::Heading { level } => {
                let closed = match st.1 {
                    Some(g) => st.0.push(g),
                    None => st.0,
                };
                match st.1 {
                    Some(g) => {
                        lemma_flat_push(st.0, g);
                    },
                    None => {
                        assert(flat_lines(st.0) + Seq::<LineV>::empty() =~= flat_lines(st.0));
                    },
                }
                assert(flat_lines(closed) == d);
                let h = single(l, ParagraphKind::Heading { level });
                lemma_flat_push(closed, h);
                assert(flat_lines(closed.push(h)) + Seq::<LineV>::empty() =~= ls);
                let out = closed.push(h);
                assert forall|k: int| 0 <= k < out.len() && (#[trigger] out[k]).kind is Heading implies out[k].lines.len() == 1 by {
                    if k < st.0.len() {
                        assert(out[k] == st.0[k]);
                    }
                }
            },
            HeadingClass::Body => {
                match st.1 {
                    Some(g) => {
                        if joins[i] {
                            assert(flat_lines(st.0) + g.lines.push(l) =~= ls);
                        } else {
                            lemma_flat_push(st.0, g);
                            assert(flat_lines(st.0.push(g)) + seq![l] =~= ls);
                            let out = st.0.push(g);
                            assert forall|k: int| 0 <= k < out.len() && (#[trigger] out[k]).kind is Heading implies out[k].lines.len() == 1 by {
                                if k < st.0.len() {
                                    assert(out[k] == st.0[k]);
                                }
                            }
                        }
                    },
                    None => {
                        assert(flat_lines(st.0) + seq![l] =~= ls);
                    },
                }
            },
        }
    }
}

/// Grouping loses, duplicates and reorders no line: the groups' lines, in
/// order, are the input lines; every heading group holds exactly one
/// line.
pub proof fn lemma_paragraphs_partition_lines(ls: Seq<LineV>, heads: Seq<HeadingClass>, joins: Seq<bool>)
    ensures
        flat_lines(paragraphs(ls, heads, joins)) == ls,
        forall|k: int|
            0 <= k < paragraphs(ls, heads, joins).len() ==> (#[trigger] paragraphs(ls, heads, joins)[k]).kind
                is Heading ==> paragraphs(ls, heads, joins)[k].lines.len() == 1,
{
    lemma_para_state_partition(ls, heads, joins);
    let st = para_state(ls, heads, joins);
    match st.1 {
        Some(g) => {
            lemma_flat_push(st.0, g);
            let out = st.0.push(g);
            assert forall|k: int| 0 <= k < out.len() && (#[trigger] out[k]).kind is Heading implies out[k].lines.len() == 1 by {
                if k < st.0.len() {
                    assert(out[k] == st.0[k]);
                }
            }
        },
        None => {
            assert(flat_lines(st.0) + Seq::<LineV>::empty() =~= flat_lines(st.0));
        },
    }
}

} // verus!
