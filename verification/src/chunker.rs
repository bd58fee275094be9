//! Semantic chunker for vector-RAG ingestion.
//!
//! The chunker walks the section tree in reading order and accumulates
//! blocks into chunks of at most `max_tokens` tokens:
//!
//! 1. No block is ever split: a block enters a chunk whole or not at all.
//! 2. When a chunk overflows, the next one starts with the last `overlap`
//!    tokens of the previous chunk, so context spans chunk boundaries.
//!
//! Each nested section starts on a fresh chunk.  Tokens are counted at
//! whitespace by [`chunk`]; callers that count them otherwise (a BPE
//! tokenizer) pass a [`TokenCounter`] to [`chunk_with`].

use vstd::prelude::*;
use std::collections::HashMap;
use crate::chars::{chars_of, is_ws};
use crate::geometry::BBox;
use crate::graph::{index_block_page, page_map};
use crate::model::{Block, BlockId, BlockType, Document};
use crate::sections::{
    body, build_tree, cview, cviews, doc_items, heading_level, leaf_of, leaves_of, lemma_body_end,
    lemma_root_body_complete, sview, tree_of, ChildV, Section, SectionChild, SectionV,
};
use crate::strings::{push_char, push_str, str_views};
use crate::text::{
    all_ws, is_blank, is_word, join, lemma_join_word_count, lemma_join_words, lemma_words_are_words,
    push_joined, seq_views, split_words, trim, word_stats, word_total, words,
};

verus! {

broadcast use {
    vstd::std_specs::vec::axiom_vec_decreases_to_view,
    vstd::std_specs::hash::group_hash_axioms,
};

/// One chunk: complete blocks, their text joined by blank lines.
#[derive(Clone, Debug, PartialEq)]
pub struct Chunk {
    /// Block texts (and the overlap prefix), separated by `"\n\n"`.
    pub text: String,
    /// Whitespace-token count.
    pub token_count: usize,
    /// Page numbers touched, in first-seen order, each once.
    pub source_pages: Vec<u32>,
    /// Boxes of the contributing blocks.
    pub bboxes: Vec<BBox>,
    /// Section titles from the root down to the containing section.
    pub section_path: Vec<String>,
    /// Ids of the contributing blocks, in reading order.
    pub block_ids: Vec<BlockId>,
}

/// Mathematical view of a [`Chunk`].
pub struct ChunkV {
    pub text: Seq<char>,
    pub token_count: nat,
    pub source_pages: Seq<u32>,
    pub bboxes: Seq<BBox>,
    pub section_path: Seq<Seq<char>>,
    pub block_ids: Seq<BlockId>,
}

impl View for Chunk {
    type V = ChunkV;

    open spec fn view(&self) -> ChunkV {
        ChunkV {
            text: self.text@,
            token_count: self.token_count as nat,
            source_pages: self.source_pages@,
            bboxes: self.bboxes@,
            section_path: str_views(self.section_path@),
            block_ids: self.block_ids@,
        }
    }
}

pub open spec fn chunk_views(v: Seq<Chunk>) -> Seq<ChunkV> {
    v.map_values(|c: Chunk| c@)
}

/// Options of [`chunk`].
#[derive(Copy, Clone, Debug, PartialEq, Eq, Structural)]
pub struct ChunkOptions {
    /// Token budget of a chunk.
    pub max_tokens: usize,
    /// Tokens of the previous chunk repeated at the start of the next.
    pub overlap: usize,
}

impl ChunkOptions {
    /// 512-token chunks with a 64-token overlap.
    pub fn default() -> (r: ChunkOptions)
        ensures
            r.max_tokens == 512,
            r.overlap == 64,
    {
        ChunkOptions { max_tokens: 512, overlap: 64 }
    }
}

/// Separator between the parts of a chunk.
pub open spec fn blank_line() -> Seq<char> {
    seq!['\n', '\n']
}

/// State of a chunk under construction.
pub struct BuilderV {
    pub path: Seq<Seq<char>>,
    pub parts: Seq<Seq<char>>,
    pub ids: Seq<BlockId>,
    pub bboxes: Seq<BBox>,
    pub pages: Seq<u32>,
    pub tokens: nat,
}

pub open spec fn fresh(path: Seq<Seq<char>>) -> BuilderV {
    BuilderV { path, parts: seq![], ids: seq![], bboxes: seq![], pages: seq![], tokens: 0 }
}

pub open spec fn has_content_v(bv: BuilderV) -> bool {
    bv.parts.len() > 0
}

pub open spec fn with_block(bv: BuilderV, b: Block, tokens: nat, page: u32) -> BuilderV {
    BuilderV {
        path: bv.path,
        parts: bv.parts.push(b.content@),
        ids: bv.ids.push(b.id),
        bboxes: bv.bboxes.push(b.bbox),
        pages: if bv.pages.contains(page) { bv.pages } else { bv.pages.push(page) },
        tokens: bv.tokens + tokens,
    }
}

pub open spec fn with_overlap(bv: BuilderV, text: Seq<char>, tokens: nat) -> BuilderV {
    BuilderV { parts: bv.parts.push(text), tokens: bv.tokens + tokens, ..bv }
}

/// The last `overlap` tokens of the chunk text, space-joined (the whole
/// text when it has no more tokens than that; empty for no overlap).
pub open spec fn tail_of(bv: BuilderV, overlap: nat) -> Seq<char> {
    if overlap == 0 {
        seq![]
    } else {
        let j = join(bv.parts, blank_line());
        let ws = words(j);
        if ws.len() <= overlap {
            j
        } else {
            join(ws.subrange(ws.len() - overlap, ws.len() as int), seq![' '])
        }
    }
}

pub open spec fn finish(bv: BuilderV) -> ChunkV {
    ChunkV {
        text: join(bv.parts, blank_line()),
        token_count: bv.tokens,
        source_pages: bv.pages,
        bboxes: bv.bboxes,
        section_path: bv.path,
        block_ids: bv.ids,
    }
}

/// Blocks with blank text are skipped unless they are figures or tables.
pub open spec fn keeps(b: Block) -> bool {
    !(trim(b.content@).len() == 0 && b.kind != BlockType::Figure && b.kind != BlockType::Table)
}

pub open spec fn page_of(pm: Map<BlockId, u32>, id: BlockId) -> u32 {
    if pm.contains_key(id) { pm[id] } else { 0 }
}

/// Whitespace token counting as a function of the text.
pub open spec fn ws_count() -> spec_fn(Seq<char>) -> nat {
    |t: Seq<char>| words(t).len()
}

/// Adding one block: flush first when it would overflow a non-empty chunk.
/// `cnt` counts the tokens of a text.
pub open spec fn add_block_v(
    st: (BuilderV, Seq<ChunkV>),
    b: Block,
    pm: Map<BlockId, u32>,
    opts: ChunkOptions,
    cnt: spec_fn(Seq<char>) -> nat,
) -> (BuilderV, Seq<ChunkV>) {
    if !keeps(b) {
        st
    } else {
        let t = cnt(b.content@);
        let cur = st.0;
        let st2 = if has_content_v(cur) && cur.tokens + t > opts.max_tokens {
            let ov = tail_of(cur, opts.overlap as nat);
            let f = fresh(cur.path);
            (
                if ov.len() > 0 && opts.overlap > 0 {
                    with_overlap(f, ov, cnt(ov))
                } else {
                    f
                },
                st.1.push(finish(cur)),
            )
        } else {
            st
        };
        (with_block(st2.0, b, t, page_of(pm, b.id)), st2.1)
    }
}

/// Builder state and finished chunks after a list of children.
pub open spec fn chunk_children(
    cs: Seq<ChildV>,
    path: Seq<Seq<char>>,
    pm: Map<BlockId, u32>,
    opts: ChunkOptions,
    cnt: spec_fn(Seq<char>) -> nat,
) -> (BuilderV, Seq<ChunkV>)
    decreases cs,
{
    if cs.len() == 0 {
        (fresh(path), seq![])
    } else {
        let r = chunk_children(cs.drop_last(), path, pm, opts, cnt);
        match cs.last() {
            ChildV::Block(b) => add_block_v(r, b, pm, opts, cnt),
            ChildV::Section(sub) => {
                let st2 = if has_content_v(r.0) {
                    (fresh(path), r.1.push(finish(r.0)))
                } else {
                    r
                };
                (st2.0, st2.1 + chunk_sec(sub, path, pm, opts, cnt))
            },
        }
    }
}

/// Path of a section: the parent's path plus its own title.
pub open spec fn section_path(s: SectionV, path: Seq<Seq<char>>) -> Seq<Seq<char>> {
    match s.heading {
        Some(h) => path.push(h.content@),
        None => path,
    }
}

/// The chunks of a section below `path`.
pub open spec fn chunk_sec(
    s: SectionV,
    path: Seq<Seq<char>>,
    pm: Map<BlockId, u32>,
    opts: ChunkOptions,
    cnt: spec_fn(Seq<char>) -> nat,
) -> Seq<ChunkV>
    decreases s,
{
    let st = chunk_children(s.children, section_path(s, path), pm, opts, cnt);
    if has_content_v(st.0) {
        st.1.push(finish(st.0))
    } else {
        st.1
    }
}

/// The chunks of a document, tokens counted by `cnt`.
pub open spec fn chunks_with(doc: Document, opts: ChunkOptions, cnt: spec_fn(Seq<char>) -> nat) -> Seq<ChunkV> {
    chunk_sec(tree_of(doc), seq![], page_map(doc.pages@), opts, cnt)
}

/// The chunks of a document, tokens counted at whitespace.
pub open spec fn chunks_of(doc: Document, opts: ChunkOptions) -> Seq<ChunkV> {
    chunks_with(doc, opts, ws_count())
}

/// One block's step keeps the running token count within `usize`: the
/// count the block is added to (the chunk's, or after a flush that of the
/// overlap text) plus the block's own.
pub open spec fn step_fits(cur: BuilderV, b: Block, opts: ChunkOptions, cnt: spec_fn(Seq<char>) -> nat) -> bool {
    let t = cnt(b.content@);
    let start = if has_content_v(cur) && cur.tokens + t > opts.max_tokens {
        let ov = tail_of(cur, opts.overlap as nat);
        if ov.len() > 0 && opts.overlap > 0 {
            cnt(ov)
        } else {
            0
        }
    } else {
        cur.tokens
    };
    !keeps(b) || start + t <= usize::MAX
}

/// Every step of chunking these children keeps the token count within
/// `usize`.
pub open spec fn children_fit(
    cs: Seq<ChildV>,
    path: Seq<Seq<char>>,
    pm: Map<BlockId, u32>,
    opts: ChunkOptions,
    cnt: spec_fn(Seq<char>) -> nat,
) -> bool
    decreases cs,
{
    if cs.len() == 0 {
        true
    } else {
        children_fit(cs.drop_last(), path, pm, opts, cnt) && match cs.last() {
            ChildV::Block(b) => step_fits(chunk_children(cs.drop_last(), path, pm, opts, cnt).0, b, opts, cnt),
            ChildV::Section(sub) => sec_fits(sub, path, pm, opts, cnt),
        }
    }
}

/// Every step of chunking a section keeps the token count within `usize`.
pub open spec fn sec_fits(
    s: SectionV,
    path: Seq<Seq<char>>,
    pm: Map<BlockId, u32>,
    opts: ChunkOptions,
    cnt: spec_fn(Seq<char>) -> nat,
) -> bool
    decreases s,
{
    children_fit(s.children, section_path(s, path), pm, opts, cnt)
}

/// Total whitespace-token count of the texts of some blocks.
pub open spec fn block_words(bs: Seq<Block>) -> nat
    decreases bs.len(),
{
    if bs.len() == 0 {
        0
    } else {
        block_words(bs.drop_last()) + words(bs.last().content@).len()
    }
}

/// Number of whitespace-separated tokens of `text`.
pub fn count_tokens(text: &str) -> (n: usize)
    ensures
        n == words(text@).len(),
{
    let v = chars_of(text);
    let (n, _) = word_stats(&v);
    n
}

/// `f` counts the tokens of every text as `cnt` does: whatever it
/// returns for a text is `cnt` of that text.
pub open spec fn counts_by<F: Fn(&str) -> usize>(f: F, cnt: spec_fn(Seq<char>) -> nat) -> bool {
    forall|s: &str, n: usize| #[trigger] call_ensures(f, (s,), n) ==> n == cnt(s@)
}

/// The counting function of a counter that is a function of the text.
pub open spec fn counted<F: Fn(&str) -> usize>(f: F) -> spec_fn(Seq<char>) -> nat {
    choose|cnt: spec_fn(Seq<char>) -> nat| counts_by(f, cnt)
}

/// Joins strings with `"\n\n"` between them.
fn join_parts(parts: &Vec<String>) -> (r: String)
    ensures
        r@ == join(str_views(parts@), blank_line()),
{
    let mut out = String::new();
    let ghost all = str_views(parts@);
    for k in 0..parts.len()
        invariant
            all == str_views(parts@),
            out@ == join(all.take(k as int), blank_line()),
    {
        proof {
            assert(all.take(k + 1).drop_last() =~= all.take(k as int));
            assert(all.take(k + 1).last() == parts@[k as int]@);
        }
        if k > 0 {
            push_char(&mut out, '\n');
            push_char(&mut out, '\n');
        } else {
            assert(all.take(1) =~= seq![all[0]]);
            assert(out@ =~= Seq::<char>::empty());
        }
        let ghost before = out@;
        push_str(&mut out, parts[k].as_str());
        assert(k > 0 ==> out@ =~= join(all.take(k as int), blank_line()) + blank_line() + parts@[k as int]@);
    }
    assert(all.take(parts@.len() as int) =~= all);
    out
}

/// A chunk under construction.
struct ChunkBuilder {
    section_path: Vec<String>,
    parts: Vec<String>,
    block_ids: Vec<BlockId>,
    bboxes: Vec<BBox>,
    pages: Vec<u32>,
    token_count: usize,
}

impl View for ChunkBuilder {
    type V = BuilderV;

    closed spec fn view(&self) -> BuilderV {
        BuilderV {
            path: str_views(self.section_path@),
            parts: str_views(self.parts@),
            ids: self.block_ids@,
            bboxes: self.bboxes@,
            pages: self.pages@,
            tokens: self.token_count as nat,
        }
    }
}

/// The builder's token count is the token count of its parts.
pub open spec fn builder_inv(bv: BuilderV) -> bool {
    bv.tokens == word_total(bv.parts) && (bv.parts.len() == 0 ==> bv.ids.len() == 0)
}

fn copy_strings(v: &Vec<String>) -> (r: Vec<String>)
    ensures
        str_views(r@) == str_views(v@),
{
    let mut r: Vec<String> = Vec::new();
    for i in 0..v.len()
        invariant
            str_views(r@) == str_views(v@.take(i as int)),
    {
        let ghost before = str_views(r@);
        let c = v[i].clone();
        r.push(c);
        assert(v@.take(i + 1) =~= v@.take(i as int).push(v@[i as int]));
        assert(str_views(r@) =~= before.push(c@));
        assert(str_views(r@) =~= str_views(v@.take(i + 1)));
    }
    assert(v@.take(v@.len() as int) =~= v@);
    r
}

impl ChunkBuilder {
    fn new(section_path: &Vec<String>) -> (r: ChunkBuilder)
        ensures
            r@ == fresh(str_views(section_path@)),
            builder_inv(r@),
    {
        let r = ChunkBuilder {
            section_path: copy_strings(section_path),
            parts: Vec::new(),
            block_ids: Vec::new(),
            bboxes: Vec::new(),
            pages: Vec::new(),
            token_count: 0,
        };
        assert(str_views(r.parts@) =~= Seq::<Seq<char>>::empty());
        assert(r.block_ids@ =~= Seq::<BlockId>::empty());
        assert(r.bboxes@ =~= Seq::<BBox>::empty());
        assert(r.pages@ =~= Seq::<u32>::empty());
        assert(r@ == fresh(str_views(section_path@)));
        r
    }

    fn has_content(&self) -> (r: bool)
        ensures
            r == has_content_v(self@),
    {
        self.parts.len() > 0
    }

    fn push_block(&mut self, block: &Block, tokens: usize, page: u32)
        requires
            old(self).token_count + tokens <= usize::MAX,
        ensures
            final(self)@ == with_block(old(self)@, *block, tokens as nat, page),
    {
        let ghost parts0 = str_views(self.parts@);
        self.parts.push(block.content.clone());
        assert(str_views(self.parts@) =~= parts0.push(block.content@));
        self.block_ids.push(block.id);
        self.bboxes.push(block.bbox);
        let mut seen = false;
        for j in 0..self.pages.len()
            invariant
                seen == (exists|k: int| 0 <= k < j && self.pages@[k] == page),
        {
            if self.pages[j] == page {
                seen = true;
            }
        }
        if !seen {
            self.pages.push(page);
        }
        self.token_count = self.token_count + tokens;
    }

    fn push_overlap(&mut self, text: String, tokens: usize)
        requires
            old(self).token_count + tokens <= usize::MAX,
        ensures
            final(self)@ == with_overlap(old(self)@, text@, tokens as nat),
    {
        let ghost parts0 = str_views(self.parts@);
        self.parts.push(text);
        assert(str_views(self.parts@) =~= parts0.push(text@));
        self.token_count = self.token_count + tokens;
    }

    /// The last `overlap` tokens of the chunk as plain text.
    fn overlap_tail(&self, overlap: usize) -> (r: String)
        ensures
            r@ == tail_of(self@, overlap as nat),
    {
        if overlap == 0 {
            return String::new();
        }
        let joined = join_parts(&self.parts);
        let v = chars_of(joined.as_str());
        let ws = split_words(&v);
        if ws.len() <= overlap {
            return joined;
        }
        let start = ws.len() - overlap;
        let mut tail: Vec<Vec<char>> = Vec::new();
        let mut k = start;
        while k < ws.len()
            invariant
                start <= k <= ws@.len(),
                seq_views(tail@) == seq_views(ws@).subrange(start as int, k as int),
            decreases ws@.len() - k,
        {
            let mut w: Vec<char> = Vec::new();
            let src = &ws[k];
            for m in 0..src.len()
                invariant
                    src == &ws@[k as int],
                    w@ == src@.take(m as int),
            {
                w.push(src[m]);
                assert(src@.take(m + 1) =~= src@.take(m as int).push(src@[m as int]));
            }
            assert(src@.take(src@.len() as int) =~= src@);
            let ghost before = seq_views(tail@);
            let ghost wv = w@;
            tail.push(w);
            assert(seq_views(tail@) =~= before.push(wv));
            assert(seq_views(ws@)[k as int] == ws@[k as int]@);
            assert(seq_views(tail@) =~= seq_views(ws@).subrange(start as int, k + 1));
            k = k + 1;
        }
        let mut out = String::new();
        push_joined(&mut out, &tail, ' ');
        assert(out@ =~= tail_of(self@, overlap as nat));
        out
    }

    fn finalize(self) -> (r: Chunk)
        ensures
            r@ == finish(self@),
    {
        let text = join_parts(&self.parts);
        Chunk {
            text,
            token_count: self.token_count,
            source_pages: self.pages,
            bboxes: self.bboxes,
            section_path: self.section_path,
            block_ids: self.block_ids,
        }
    }
}

proof fn lemma_tail_tokens(bv: BuilderV, overlap: nat)
    requires
        builder_inv(bv),
    ensures
        words(tail_of(bv, overlap)).len() <= bv.tokens,
{
    if overlap > 0 {
        let j = join(bv.parts, blank_line());
        assert(is_ws('\n'));
        assert(all_ws(blank_line()));
        lemma_join_word_count(bv.parts, blank_line());
        let ws = words(j);
        if ws.len() > overlap {
            let suf = ws.subrange(ws.len() - overlap, ws.len() as int);
            lemma_words_are_words(j);
            assert forall|i: int| 0 <= i < suf.len() implies is_word(#[trigger] suf[i]) by {
                assert(suf[i] == ws[ws.len() - overlap + i]);
            }
            assert(is_ws(' '));
            assert(all_ws(seq![' ']));
            lemma_join_words(suf, seq![' ']);
        }
    }
}

proof fn lemma_with_part_tokens(bv: BuilderV, p: Seq<char>)
    ensures
        word_total(bv.parts.push(p)) == word_total(bv.parts) + words(p).len(),
{
    assert(bv.parts.push(p).drop_last() =~= bv.parts);
}

/// Adds one block to the current chunk, flushing it into `chunks` first
/// when the block would overflow the token budget.
fn add_block_to_chunk<F: Fn(&str) -> usize>(
    current: &mut ChunkBuilder,
    block: &Block,
    block_page: &HashMap<BlockId, u32>,
    opts: &ChunkOptions,
    counter: &F,
    Ghost(cnt): Ghost<spec_fn(Seq<char>) -> nat>,
    chunks: &mut Vec<Chunk>,
)
    requires
        forall|s: &str| counter.requires((s,)),
        counts_by(*counter, cnt),
        step_fits(old(current)@, *block, *opts, cnt),
    ensures
        (final(current)@, chunk_views(final(chunks)@)) == add_block_v(
            (old(current)@, chunk_views(old(chunks)@)),
            *block,
            block_page@,
            *opts,
            cnt,
        ),
{
    let ghost st = (current@, chunk_views(chunks@));
    if is_blank(block.content.as_str()) && block.kind != BlockType::Figure && block.kind != BlockType::Table {
        return;
    }
    let block_tokens = counter(block.content.as_str());
    if current.has_content() && (current.token_count > opts.max_tokens || block_tokens > opts.max_tokens
        - current.token_count) {
        let overlap_text = current.overlap_tail(opts.overlap);
        let mut old_builder = ChunkBuilder::new(&current.section_path);
        std::mem::swap(current, &mut old_builder);
        let ghost ch0 = chunk_views(chunks@);
        chunks.push(old_builder.finalize());
        assert(chunk_views(chunks@) =~= ch0.push(finish(old_builder@)));
        if !overlap_text.as_str().is_empty() && opts.overlap > 0 {
            let t = counter(overlap_text.as_str());
            current.push_overlap(overlap_text, t);
        }
    }
    let page = match block_page.get(&block.id) {
        Some(p) => *p,
        None => 0,
    };
    current.push_block(block, block_tokens, page);
}

proof fn lemma_block_words_concat(a: Seq<Block>, b: Seq<Block>)
    ensures
        block_words(a + b) == block_words(a) + block_words(b),
    decreases b.len(),
{
    if b.len() == 0 {
        assert(a + b =~= a);
    } else {
        assert((a + b).drop_last() =~= a + b.drop_last());
        lemma_block_words_concat(a, b.drop_last());
    }
}

/// Appends the chunks of `section` (below `path`) to `chunks`.
fn walk_section<F: Fn(&str) -> usize>(
    section: &Section,
    path: &Vec<String>,
    block_page: &HashMap<BlockId, u32>,
    opts: &ChunkOptions,
    counter: &F,
    Ghost(cnt): Ghost<spec_fn(Seq<char>) -> nat>,
    chunks: &mut Vec<Chunk>,
)
    requires
        forall|s: &str| counter.requires((s,)),
        counts_by(*counter, cnt),
        sec_fits(sview(*section), str_views(path@), block_page@, *opts, cnt),
    ensures
        chunk_views(final(chunks)@) == chunk_views(old(chunks)@) + chunk_sec(
            sview(*section),
            str_views(path@),
            block_page@,
            *opts,
            cnt,
        ),
    decreases section,
{
    let ghost c0 = chunk_views(chunks@);
    let ghost sv = sview(*section);
    let ghost pm = block_page@;
    let mut current_path = copy_strings(path);
    match section.heading {
        Some(h) => {
            let ghost p0 = str_views(current_path@);
            current_path.push(h.content.clone());
            assert(str_views(current_path@) =~= p0.push(h.content@));
        },
        None => {},
    }
    let ghost cp = str_views(current_path@);
    assert(cp == section_path(sv, str_views(path@)));
    let mut current = ChunkBuilder::new(&current_path);
    let mut i: usize = 0;
    assert(cviews(section.children@.take(0)) =~= Seq::<ChildV>::empty());
    assert(c0 + Seq::<ChunkV>::empty() =~= c0);
    while i < section.children.len()
        invariant
            i <= section.children@.len(),
            sv == sview(*section),
            pm == block_page@,
            cp == str_views(current_path@),
            forall|s: &str| counter.requires((s,)),
            counts_by(*counter, cnt),
            children_fit(sv.children, cp, pm, *opts, cnt),
            ({
                let st = chunk_children(cviews(section.children@.take(i as int)), cp, pm, *opts, cnt);
                &&& current@ == st.0
                &&& chunk_views(chunks@) == c0 + st.1
            }),
        decreases section.children@.len() - i,
    {
        let ghost t = cviews(section.children@.take(i as int));
        let ghost c = cview(section.children@[i as int]);
        let ghost st = chunk_children(t, cp, pm, *opts, cnt);
        proof {
            let all = section.children@;
            assert(all.take(i + 1).drop_last() =~= all.take(i as int));
            assert(cviews(all.take(i + 1)) == t.push(c));
            assert(t.push(c).drop_last() =~= t);
            lemma_cviews_take(all, (i + 1) as int);
            lemma_fit_prefix(sv.children, (i + 1) as int, cp, pm, *opts, cnt);
            assert(sv.children.take(i + 1) == t.push(c));
        }
        match &section.children[i] {
            SectionChild::Block(b) => {
                add_block_to_chunk(&mut current, b, block_page, opts, counter, Ghost(cnt), chunks);
            },
            SectionChild::Section(sub) => {
                assert(decreases_to!(section => section.children));
                let ghost mid = chunk_views(chunks@);
                if current.has_content() {
                    let mut done = ChunkBuilder::new(&current_path);
                    std::mem::swap(&mut current, &mut done);
                    chunks.push(done.finalize());
                    assert(chunk_views(chunks@) =~= mid.push(finish(done@)));
                }
                let ghost mid2 = chunk_views(chunks@);
                walk_section(sub, &current_path, block_page, opts, counter, Ghost(cnt), chunks);
                proof {
                    if has_content_v(st.0) {
                        assert(st.1.push(finish(st.0)) =~= st.1 + seq![finish(st.0)]);
                        assert(c0 + (st.1.push(finish(st.0)) + chunk_sec(sview(*sub), cp, pm, *opts, cnt))
                            =~= mid2 + chunk_sec(sview(*sub), cp, pm, *opts, cnt));
                    } else {
                        assert(c0 + (st.1 + chunk_sec(sview(*sub), cp, pm, *opts, cnt)) =~= mid2
                            + chunk_sec(sview(*sub), cp, pm, *opts, cnt));
                    }
                }
            },
        }
        i = i + 1;
    }
    assert(section.children@.take(section.children@.len() as int) =~= section.children@);
    if current.has_content() {
        let ghost mid = chunk_views(chunks@);
        chunks.push(current.finalize());
        assert(chunk_views(chunks@) =~= mid.push(finish(current@)));
    }
}

proof fn lemma_cviews_take(cs: Seq<SectionChild>, i: int)
    requires
        0 <= i <= cs.len(),
    ensures
        cviews(cs.take(i)) == cviews(cs).take(i),
        cviews(cs).len() == cs.len(),
    decreases cs.len(),
{
    if cs.len() == 0 {
        assert(cs.take(i) =~= cs);
        assert(cviews(cs).take(i) =~= cviews(cs));
    } else {
        let d = cs.drop_last();
        if i == cs.len() {
            lemma_cviews_take(d, d.len() as int);
            assert(cs.take(i) =~= cs);
            assert(cviews(cs).take(i) =~= cviews(cs));
        } else {
            lemma_cviews_take(d, i);
            assert(cs.take(i) =~= d.take(i));
            assert(cviews(cs).take(i) =~= cviews(d).take(i));
        }
    }
}

/// Chunking these children within `usize` stays so for any prefix.
proof fn lemma_fit_prefix(
    cs: Seq<ChildV>,
    i: int,
    path: Seq<Seq<char>>,
    pm: Map<BlockId, u32>,
    opts: ChunkOptions,
    cnt: spec_fn(Seq<char>) -> nat,
)
    requires
        0 <= i <= cs.len(),
        children_fit(cs, path, pm, opts, cnt),
    ensures
        children_fit(cs.take(i), path, pm, opts, cnt),
    decreases cs.len() - i,
{
    if i < cs.len() {
        lemma_fit_prefix(cs, i + 1, path, pm, opts, cnt);
        assert(cs.take(i + 1).drop_last() =~= cs.take(i));
    } else {
        assert(cs.take(i) =~= cs);
    }
}

/// With whitespace counting, chunking the children keeps every builder
/// honest (its count is the word count of its parts), never counts more
/// tokens than the children's blocks hold, and so never leaves `usize`
/// when they hold at most `usize::MAX` words.
proof fn lemma_children_fit_ws(cs: Seq<ChildV>, path: Seq<Seq<char>>, pm: Map<BlockId, u32>, opts: ChunkOptions)
    requires
        block_words(leaves_of(cs)) <= usize::MAX,
    ensures
        children_fit(cs, path, pm, opts, ws_count()),
        builder_inv(chunk_children(cs, path, pm, opts, ws_count()).0),
        chunk_children(cs, path, pm, opts, ws_count()).0.tokens <= block_words(leaves_of(cs)),
    decreases cs,
{
    let cnt = ws_count();
    if cs.len() == 0 {
        assert(word_total(Seq::<Seq<char>>::empty()) == 0);
    } else {
        let d = cs.drop_last();
        assert(leaves_of(cs) == leaves_of(d) + leaf_of(cs.last()));
        lemma_block_words_concat(leaves_of(d), leaf_of(cs.last()));
        lemma_children_fit_ws(d, path, pm, opts);
        let r = chunk_children(d, path, pm, opts, cnt);
        match cs.last() {
            ChildV::Block(b) => {
                assert(leaf_of(ChildV::Block(b)) == seq![b]);
                assert(seq![b].drop_last() =~= Seq::<Block>::empty());
                assert(seq![b].last() == b);
                assert(block_words(Seq::<Block>::empty()) == 0);
                assert(block_words(seq![b]) == words(b.content@).len());
                if keeps(b) {
                    let cur = r.0;
                    let t = words(b.content@).len();
                    if has_content_v(cur) && cur.tokens + t > opts.max_tokens {
                        let ov = tail_of(cur, opts.overlap as nat);
                        lemma_tail_tokens(cur, opts.overlap as nat);
                        let f = fresh(cur.path);
                        if ov.len() > 0 && opts.overlap > 0 {
                            lemma_with_part_tokens(f, ov);
                            assert(f.parts.push(ov).drop_last() =~= f.parts);
                            lemma_with_part_tokens(with_overlap(f, ov, words(ov).len()), b.content@);
                        } else {
                            lemma_with_part_tokens(f, b.content@);
                        }
                    } else {
                        lemma_with_part_tokens(cur, b.content@);
                    }
                }
            },
            ChildV::Section(sub) => {
                assert(leaf_of(ChildV::Section(sub)) == leaves_of(sub.children));
                lemma_sec_fit_ws(sub, path, pm, opts);
                if !has_content_v(r.0) {
                    assert(r.0.parts =~= Seq::<Seq<char>>::empty());
                }
                assert(word_total(Seq::<Seq<char>>::empty()) == 0);
            },
        }
    }
}

proof fn lemma_sec_fit_ws(s: SectionV, path: Seq<Seq<char>>, pm: Map<BlockId, u32>, opts: ChunkOptions)
    requires
        block_words(leaves_of(s.children)) <= usize::MAX,
    ensures
        sec_fits(s, path, pm, opts, ws_count()),
    decreases s,
{
    lemma_children_fit_ws(s.children, section_path(s, path), pm, opts);
}

fn chunk_by<F: Fn(&str) -> usize>(
    doc: &Document,
    opts: &ChunkOptions,
    counter: &F,
    Ghost(cnt): Ghost<spec_fn(Seq<char>) -> nat>,
) -> (r: Vec<Chunk>)
    requires
        forall|s: &str| counter.requires((s,)),
        counts_by(*counter, cnt),
        sec_fits(tree_of(*doc), seq![], page_map(doc.pages@), *opts, cnt),
    ensures
        chunk_views(r@) == chunks_with(*doc, *opts, cnt),
{
    let tree = build_tree(doc);
    let block_page = index_block_page(doc);
    let mut chunks: Vec<Chunk> = Vec::new();
    let root_path: Vec<String> = Vec::new();
    assert(str_views(root_path@) =~= Seq::<Seq<char>>::empty());
    walk_section(&tree, &root_path, &block_page, opts, counter, Ghost(cnt), &mut chunks);
    assert(chunk_views(Seq::<Chunk>::empty()) + chunks_with(*doc, *opts, cnt) =~= chunks_with(*doc, *opts, cnt));
    chunks
}

/// Splits `doc` into chunks, in reading order, counting tokens with
/// `counter` (for instance a BPE tokenizer), which must answer every text
/// and give the same count for the same text.
pub fn chunk_with<F: Fn(&str) -> usize>(doc: &Document, opts: &ChunkOptions, counter: F) -> (r: Vec<Chunk>)
    requires
        forall|s: &str| counter.requires((s,)),
        exists|cnt: spec_fn(Seq<char>) -> nat| counts_by(counter, cnt),
        sec_fits(tree_of(*doc), seq![], page_map(doc.pages@), *opts, counted(counter)),
    ensures
        chunk_views(r@) == chunks_with(*doc, *opts, counted(counter)),
{
    chunk_by(doc, opts, &counter, Ghost(counted(counter)))
}

/// Splits `doc` into chunks, in reading order, counting tokens at
/// whitespace.
pub fn chunk(doc: &Document, opts: &ChunkOptions) -> (r: Vec<Chunk>)
    requires
        block_words(leaves_of(tree_of(*doc).children)) <= usize::MAX,
    ensures
        chunk_views(r@) == chunks_of(*doc, *opts),
{
    let by_words = |t: &str| -> (n: usize)
        ensures
            n == words(t@).len(),
        { count_tokens(t) };
    proof {
        lemma_sec_fit_ws(tree_of(*doc), seq![], page_map(doc.pages@), *opts);
    }
    chunk_by(doc, opts, &by_words, Ghost(ws_count()))
}

/// A finished chunk holds at least one block, and stays within the token
/// budget unless it holds a single block.
pub open spec fn chunk_ok(c: ChunkV, opts: ChunkOptions) -> bool {
    c.block_ids.len() >= 1 && (c.block_ids.len() >= 2 ==> c.token_count <= opts.max_tokens)
}

pub open spec fn all_ok(cs: Seq<ChunkV>, opts: ChunkOptions) -> bool {
    forall|i: int| 0 <= i < cs.len() ==> chunk_ok(#[trigger] cs[i], opts)
}

/// Block ids of a list of chunks, chunk after chunk.
pub open spec fn all_block_ids(cs: Seq<ChunkV>) -> Seq<BlockId>
    decreases cs.len(),
{
    if cs.len() == 0 {
        seq![]
    } else {
        all_block_ids(cs.drop_last()) + cs.last().block_ids
    }
}

/// Ids of the blocks the chunker keeps, in order.
pub open spec fn kept_ids(bs: Seq<Block>) -> Seq<BlockId>
    decreases bs.len(),
{
    if bs.len() == 0 {
        seq![]
    } else if keeps(bs.last()) {
        kept_ids(bs.drop_last()).push(bs.last().id)
    } else {
        kept_ids(bs.drop_last())
    }
}

/// The blocks that are not headings.
pub open spec fn non_headings(bs: Seq<Block>) -> Seq<Block>
    decreases bs.len(),
{
    if bs.len() == 0 {
        seq![]
    } else if bs.last().kind is Heading {
        non_headings(bs.drop_last())
    } else {
        non_headings(bs.drop_last()).push(bs.last())
    }
}

pub open spec fn builder_good(bv: BuilderV, opts: ChunkOptions) -> bool {
    &&& has_content_v(bv) ==> bv.ids.len() >= 1
    &&& !has_content_v(bv) ==> bv.ids.len() == 0
    &&& bv.ids.len() >= 2 ==> bv.tokens <= opts.max_tokens
}

proof fn lemma_all_ids_concat(a: Seq<ChunkV>, b: Seq<ChunkV>)
    ensures
        all_block_ids(a + b) == all_block_ids(a) + all_block_ids(b),
    decreases b.len(),
{
    if b.len() == 0 {
        assert(a + b =~= a);
        assert(all_block_ids(a) + all_block_ids(b) =~= all_block_ids(a));
    } else {
        assert((a + b).drop_last() =~= a + b.drop_last());
        lemma_all_ids_concat(a, b.drop_last());
        assert(all_block_ids(a) + all_block_ids(b.drop_last()) + b.last().block_ids =~= all_block_ids(
            a,
        ) + (all_block_ids(b.drop_last()) + b.last().block_ids));
    }
}

proof fn lemma_all_ids_push(a: Seq<ChunkV>, c: ChunkV)
    ensures
        all_block_ids(a.push(c)) == all_block_ids(a) + c.block_ids,
{
    assert(a.push(c).drop_last() =~= a);
}

proof fn lemma_kept_ids_concat(a: Seq<Block>, b: Seq<Block>)
    ensures
        kept_ids(a + b) == kept_ids(a) + kept_ids(b),
    decreases b.len(),
{
    if b.len() == 0 {
        assert(a + b =~= a);
        assert(kept_ids(a) + kept_ids(b) =~= kept_ids(a));
    } else {
        assert((a + b).drop_last() =~= a + b.drop_last());
        lemma_kept_ids_concat(a, b.drop_last());
        assert((kept_ids(a) + kept_ids(b.drop_last())).push(b.last().id) =~= kept_ids(a) + kept_ids(
            b.drop_last(),
        ).push(b.last().id));
    }
}

proof fn lemma_non_headings_concat(a: Seq<Block>, b: Seq<Block>)
    ensures
        non_headings(a + b) == non_headings(a) + non_headings(b),
    decreases b.len(),
{
    if b.len() == 0 {
        assert(a + b =~= a);
        assert(non_headings(a) + non_headings(b) =~= non_headings(a));
    } else {
        assert((a + b).drop_last() =~= a + b.drop_last());
        lemma_non_headings_concat(a, b.drop_last());
        assert((non_headings(a) + non_headings(b.drop_last())).push(b.last()) =~= non_headings(a)
            + non_headings(b.drop_last()).push(b.last()));
    }
}

proof fn lemma_add_block_good(
    st: (BuilderV, Seq<ChunkV>),
    b: Block,
    pm: Map<BlockId, u32>,
    opts: ChunkOptions,
    cnt: spec_fn(Seq<char>) -> nat,
)
    requires
        builder_good(st.0, opts),
        all_ok(st.1, opts),
    ensures
        builder_good(add_block_v(st, b, pm, opts, cnt).0, opts),
        all_ok(add_block_v(st, b, pm, opts, cnt).1, opts),
        all_block_ids(add_block_v(st, b, pm, opts, cnt).1) + add_block_v(st, b, pm, opts, cnt).0.ids == all_block_ids(
            st.1,
        ) + st.0.ids + (if keeps(b) { seq![b.id] } else { seq![] }),
{
    if !keeps(b) {
        assert(all_block_ids(st.1) + st.0.ids + Seq::<BlockId>::empty() =~= all_block_ids(st.1) + st.0.ids);
    } else {
        let t = cnt(b.content@);
        let cur = st.0;
        if has_content_v(cur) && cur.tokens + t > opts.max_tokens {
            let ch = st.1.push(finish(cur));
            assert forall|i: int| 0 <= i < ch.len() implies chunk_ok(#[trigger] ch[i], opts) by {
                if i < st.1.len() {
                    assert(ch[i] == st.1[i]);
                }
            }
            lemma_all_ids_push(st.1, finish(cur));
            let r = add_block_v(st, b, pm, opts, cnt);
            assert(r.0.ids =~= seq![b.id]);
            assert(all_block_ids(ch) + seq![b.id] =~= all_block_ids(st.1) + cur.ids + seq![b.id]);
        } else {
            let r = add_block_v(st, b, pm, opts, cnt);
            assert(r.0.ids == cur.ids.push(b.id));
            assert(all_block_ids(st.1) + cur.ids.push(b.id) =~= all_block_ids(st.1) + cur.ids + seq![b.id]);
        }
    }
}

proof fn lemma_chunk_children_good(
    cs: Seq<ChildV>,
    path: Seq<Seq<char>>,
    pm: Map<BlockId, u32>,
    opts: ChunkOptions,
    cnt: spec_fn(Seq<char>) -> nat,
)
    ensures
        builder_good(chunk_children(cs, path, pm, opts, cnt).0, opts),
        all_ok(chunk_children(cs, path, pm, opts, cnt).1, opts),
        all_block_ids(chunk_children(cs, path, pm, opts, cnt).1) + chunk_children(cs, path, pm, opts, cnt).0.ids
            == kept_ids(leaves_of(cs)),
    decreases cs,
{
    if cs.len() == 0 {
        assert(all_block_ids(Seq::<ChunkV>::empty()) + Seq::<BlockId>::empty() =~= Seq::<BlockId>::empty());
        assert(leaves_of(cs) == Seq::<Block>::empty());
        assert(kept_ids(Seq::<Block>::empty()) == Seq::<BlockId>::empty());
    } else {
        let d = cs.drop_last();
        lemma_chunk_children_good(d, path, pm, opts, cnt);
        let r = chunk_children(d, path, pm, opts, cnt);
        match cs.last() {
            ChildV::Block(b) => {
                lemma_add_block_good(r, b, pm, opts, cnt);
                assert(leaf_of(ChildV::Block(b)) == seq![b]);
                assert(seq![b].drop_last() =~= Seq::<Block>::empty());
                assert(kept_ids(Seq::<Block>::empty()) == Seq::<BlockId>::empty());
                assert(seq![b].last() == b);
                assert(kept_ids(seq![b]) =~= (if keeps(b) { seq![b.id] } else { Seq::<BlockId>::empty() }));
                assert(leaves_of(cs) == leaves_of(d) + seq![b]);
                lemma_kept_ids_concat(leaves_of(d), seq![b]);
                let a = add_block_v(r, b, pm, opts, cnt);
                assert(all_block_ids(a.1) + a.0.ids =~= kept_ids(leaves_of(cs)));
            },
            ChildV::Section(sub) => {
                lemma_chunk_sec_good(sub, path, pm, opts, cnt);
                let st2 = if has_content_v(r.0) {
                    (fresh(path), r.1.push(finish(r.0)))
                } else {
                    r
                };
                if has_content_v(r.0) {
                    assert forall|i: int| 0 <= i < st2.1.len() implies chunk_ok(#[trigger] st2.1[i], opts) by {
                        if i < r.1.len() {
                            assert(st2.1[i] == r.1[i]);
                        }
                    }
                    lemma_all_ids_push(r.1, finish(r.0));
                    assert(st2.0.ids =~= Seq::<BlockId>::empty());
                } else {
                    assert(r.0.ids =~= Seq::<BlockId>::empty());
                }
                assert(all_block_ids(st2.1) == kept_ids(leaves_of(d))) by {
                    if !has_content_v(r.0) {
                        assert(all_block_ids(r.1) + r.0.ids =~= all_block_ids(r.1));
                    }
                };
                let sc = chunk_sec(sub, path, pm, opts, cnt);
                let out = st2.1 + sc;
                assert forall|i: int| 0 <= i < out.len() implies chunk_ok(#[trigger] out[i], opts) by {
                    if i < st2.1.len() {
                        assert(out[i] == st2.1[i]);
                    } else {
                        assert(out[i] == sc[i - st2.1.len()]);
                    }
                }
                lemma_all_ids_concat(st2.1, sc);
                lemma_kept_ids_concat(leaves_of(d), leaves_of(sub.children));
                assert(st2.0.ids =~= Seq::<BlockId>::empty());
                assert(all_block_ids(out) + st2.0.ids =~= all_block_ids(out));
                assert(leaf_of(ChildV::Section(sub)) == leaves_of(sub.children));
                assert(leaves_of(cs) == leaves_of(d) + leaf_of(cs.last()));
                assert(all_block_ids(out) + st2.0.ids =~= kept_ids(leaves_of(cs)));
            },
        }
    }
}

proof fn lemma_chunk_sec_good(
    s: SectionV,
    path: Seq<Seq<char>>,
    pm: Map<BlockId, u32>,
    opts: ChunkOptions,
    cnt: spec_fn(Seq<char>) -> nat,
)
    ensures
        all_ok(chunk_sec(s, path, pm, opts, cnt), opts),
        all_block_ids(chunk_sec(s, path, pm, opts, cnt)) == kept_ids(leaves_of(s.children)),
    decreases s,
{
    let p = section_path(s, path);
    lemma_chunk_children_good(s.children, p, pm, opts, cnt);
    let st = chunk_children(s.children, p, pm, opts, cnt);
    if has_content_v(st.0) {
        let out = st.1.push(finish(st.0));
        assert forall|i: int| 0 <= i < out.len() implies chunk_ok(#[trigger] out[i], opts) by {
            if i < st.1.len() {
                assert(out[i] == st.1[i]);
            }
        }
        lemma_all_ids_push(st.1, finish(st.0));
    } else {
        assert(all_block_ids(st.1) + st.0.ids =~= all_block_ids(st.1));
    }
}

proof fn lemma_leaves_concat(a: Seq<ChildV>, b: Seq<ChildV>)
    ensures
        leaves_of(a + b) == leaves_of(a) + leaves_of(b),
    decreases b.len(),
{
    if b.len() == 0 {
        assert(a + b =~= a);
        assert(leaves_of(a) + leaves_of(b) =~= leaves_of(a));
    } else {
        assert((a + b).drop_last() =~= a + b.drop_last());
        lemma_leaves_concat(a, b.drop_last());
        assert(leaves_of(a) + leaves_of(b.drop_last()) + leaf_of(b.last()) =~= leaves_of(a) + (leaves_of(
            b.drop_last(),
        ) + leaf_of(b.last())));
    }
}

proof fn lemma_body_leaves(items: Seq<Block>, i: int, lvl: int)
    requires
        0 <= i <= items.len(),
    ensures
        leaves_of(body(items, i, lvl).0) == non_headings(items.subrange(i, body(items, i, lvl).1)),
    decreases items.len() - i,
{
    lemma_body_end(items, i, lvl);
    if i == items.len() {
        assert(items.subrange(i, i) =~= Seq::<Block>::empty());
    } else {
        match heading_level(items[i]) {
            Some(level) => {
                if level <= lvl {
                    assert(items.subrange(i, i) =~= Seq::<Block>::empty());
                } else {
                    lemma_body_end(items, i + 1, level as int);
                    let sub = body(items, i + 1, level as int);
                    lemma_body_leaves(items, i + 1, level as int);
                    lemma_body_end(items, sub.1, lvl);
                    lemma_body_leaves(items, sub.1, lvl);
                    let rest = body(items, sub.1, lvl);
                    let c = ChildV::Section(SectionV { heading: Some(items[i]), level, children: sub.0 });
                    lemma_leaves_concat(seq![c], rest.0);
                    assert(seq![c].drop_last() =~= Seq::<ChildV>::empty());
                    assert(leaves_of(Seq::<ChildV>::empty()) == Seq::<Block>::empty());
                    assert(seq![c].last() == c);
                    assert(Seq::<Block>::empty() + leaf_of(c) =~= leaf_of(c));
                    assert(leaves_of(Seq::<ChildV>::empty()) == Seq::<Block>::empty());
                assert(seq![c].last() == c);
                assert(Seq::<Block>::empty() + leaf_of(c) =~= leaf_of(c));
                assert(leaves_of(seq![c]) == leaf_of(c));
                    assert(seq![items[i]].drop_last() =~= Seq::<Block>::empty());
                    assert(non_headings(Seq::<Block>::empty()) == Seq::<Block>::empty());
                    assert(seq![items[i]].last() == items[i]);
                    assert(items[i].kind is Heading);
                    assert(non_headings(seq![items[i]]) =~= Seq::<Block>::empty());
                    lemma_non_headings_concat(seq![items[i]], items.subrange(i + 1, sub.1));
                    lemma_non_headings_concat(seq![items[i]] + items.subrange(i + 1, sub.1), items.subrange(
                        sub.1,
                        rest.1,
                    ));
                    assert(seq![items[i]] + items.subrange(i + 1, sub.1) + items.subrange(sub.1, rest.1)
                        =~= items.subrange(i, rest.1));
                    assert(Seq::<Block>::empty() + non_headings(items.subrange(i + 1, sub.1))
                        =~= non_headings(items.subrange(i + 1, sub.1)));
                }
            },
            None => {
                lemma_body_leaves(items, i + 1, lvl);
                lemma_body_end(items, i + 1, lvl);
                let rest = body(items, i + 1, lvl);
                let c = ChildV::Block(items[i]);
                lemma_leaves_concat(seq![c], rest.0);
                assert(seq![c].drop_last() =~= Seq::<ChildV>::empty());
                assert(leaves_of(Seq::<ChildV>::empty()) == Seq::<Block>::empty());
                assert(seq![c].last() == c);
                assert(Seq::<Block>::empty() + leaf_of(c) =~= leaf_of(c));
                assert(leaves_of(seq![c]) == leaf_of(c));
                assert(leaves_of(Seq::<ChildV>::empty()) + leaf_of(c) =~= seq![items[i]]);
                assert(seq![items[i]].drop_last() =~= Seq::<Block>::empty());
                assert(non_headings(Seq::<Block>::empty()) == Seq::<Block>::empty());
                assert(seq![items[i]].last() == items[i]);
                assert(!(items[i].kind is Heading));
                assert(non_headings(seq![items[i]]) =~= seq![items[i]]);
                lemma_non_headings_concat(seq![items[i]], items.subrange(i + 1, rest.1));
                assert(seq![items[i]] + items.subrange(i + 1, rest.1) =~= items.subrange(i, rest.1));
            },
        }
    }
}

/// No block is split or lost, whatever counts the tokens: reading the
/// chunks' block ids in order gives every non-heading block of the
/// reading order that the chunker keeps (all but blank non-figure,
/// non-table blocks), each once.  Every chunk holds at least one block,
/// and a chunk of two or more blocks stays within the token budget.
pub proof fn lemma_chunks_preserve_blocks(doc: Document, opts: ChunkOptions, cnt: spec_fn(Seq<char>) -> nat)
    ensures
        all_block_ids(chunks_with(doc, opts, cnt)) == kept_ids(non_headings(doc_items(doc.pages@))),
        forall|i: int|
            0 <= i < chunks_with(doc, opts, cnt).len() ==> chunk_ok(
                #[trigger] chunks_with(doc, opts, cnt)[i],
                opts,
            ),
{
    let items = doc_items(doc.pages@);
    lemma_chunk_sec_good(tree_of(doc), seq![], page_map(doc.pages@), opts, cnt);
    lemma_body_leaves(items, 0, -1);
    lemma_root_body_complete(items, 0);
    assert(items.subrange(0, items.len() as int) =~= items);
}

/// `pages` lists, each once, exactly the pages of the blocks `ids`, in the
/// order in which their first blocks come.
pub open spec fn pages_of_blocks(pages: Seq<u32>, ids: Seq<BlockId>, pm: Map<BlockId, u32>) -> bool {
    &&& pages.no_duplicates()
    &&& forall|k: int| 0 <= k < ids.len() ==> pages.contains(page_of(pm, #[trigger] ids[k]))
    &&& forall|j: int|
        0 <= j < pages.len() ==> exists|k: int|
            0 <= k < ids.len() && page_of(pm, #[trigger] ids[k]) == #[trigger] pages[j]
    &&& forall|j1: int, j2: int, k2: int|
        #![trigger pages[j1], pages[j2], ids[k2]]
        0 <= j1 < j2 < pages.len() && 0 <= k2 < ids.len() && page_of(pm, ids[k2]) == pages[j2]
            ==> block_before(ids, pm, pages[j1], k2)
}

/// One of the first `k` blocks `ids` is on page `page`.
pub open spec fn block_before(ids: Seq<BlockId>, pm: Map<BlockId, u32>, page: u32, k: int) -> bool {
    exists|k1: int| 0 <= k1 < k && page_of(pm, #[trigger] ids[k1]) == page
}

/// Adding a block records its page once: the page is then listed, no page
/// is listed twice, and the pages listed before stay, in their order.
pub proof fn lemma_with_block_records_page(bv: BuilderV, b: Block, tokens: nat, page: u32)
    requires
        bv.pages.no_duplicates(),
    ensures
        with_block(bv, b, tokens, page).pages.contains(page),
        with_block(bv, b, tokens, page).pages.no_duplicates(),
        with_block(bv, b, tokens, page).pages.take(bv.pages.len() as int) == bv.pages,
        with_block(bv, b, tokens, page).pages.len() == bv.pages.len() + if bv.pages.contains(page) {
            0int
        } else {
            1int
        },
{
    let p2 = with_block(bv, b, tokens, page).pages;
    if bv.pages.contains(page) {
        assert(p2.take(bv.pages.len() as int) =~= bv.pages);
    } else {
        assert(p2[bv.pages.len() as int] == page);
        assert(p2.take(bv.pages.len() as int) =~= bv.pages);
        assert forall|i: int, j: int| 0 <= i < p2.len() && 0 <= j < p2.len() && i != j implies p2[i] != p2[j] by {
            if i < bv.pages.len() && j < bv.pages.len() {
                assert(p2[i] == bv.pages[i] && p2[j] == bv.pages[j]);
            } else if i < bv.pages.len() {
                assert(p2[i] == bv.pages[i]);
            } else {
                assert(p2[j] == bv.pages[j]);
            }
        }
    }
}

proof fn lemma_with_block_pages(bv: BuilderV, b: Block, tokens: nat, pm: Map<BlockId, u32>)
    requires
        pages_of_blocks(bv.pages, bv.ids, pm),
    ensures
        pages_of_blocks(
            with_block(bv, b, tokens, page_of(pm, b.id)).pages,
            with_block(bv, b, tokens, page_of(pm, b.id)).ids,
            pm,
        ),
{
    let pg = page_of(pm, b.id);
    let nb = with_block(bv, b, tokens, pg);
    lemma_with_block_records_page(bv, b, tokens, pg);
    let n = bv.pages.len() as int;
    assert forall|k: int| 0 <= k < nb.ids.len() implies nb.pages.contains(page_of(pm, #[trigger] nb.ids[k])) by {
        if k < bv.ids.len() {
            assert(nb.ids[k] == bv.ids[k]);
            assert(bv.pages.contains(page_of(pm, bv.ids[k])));
            let i = choose|i: int| 0 <= i < bv.pages.len() && bv.pages[i] == page_of(pm, bv.ids[k]);
            assert(nb.pages.take(n)[i] == nb.pages[i]);
        } else {
            assert(nb.ids[k] == b.id);
        }
    }
    assert forall|j: int| 0 <= j < nb.pages.len() implies exists|k: int|
        0 <= k < nb.ids.len() && page_of(pm, #[trigger] nb.ids[k]) == #[trigger] nb.pages[j] by {
        if j < n {
            assert(nb.pages.take(n)[j] == nb.pages[j]);
            let k = choose|k: int| 0 <= k < bv.ids.len() && page_of(pm, #[trigger] bv.ids[k]) == bv.pages[j];
            assert(nb.ids[k] == bv.ids[k]);
        } else {
            assert(nb.pages[j] == pg);
            assert(nb.ids[bv.ids.len() as int] == b.id);
        }
    }
    let m = bv.ids.len() as int;
    let ps = with_block(bv, b, tokens, page_of(pm, b.id)).pages;
    let is = with_block(bv, b, tokens, page_of(pm, b.id)).ids;
    assert forall|j1: int, j2: int, k2: int|
        #![trigger ps[j1], ps[j2], is[k2]]
        0 <= j1 < j2 < ps.len() && 0 <= k2 < is.len() && page_of(pm, is[k2]) == ps[j2] implies block_before(
            is,
            pm,
            ps[j1],
            k2,
        ) by {
        assert(nb.pages.take(n)[j1] == nb.pages[j1]);
        if k2 < m {
            assert(nb.ids[k2] == bv.ids[k2]);
            if j2 == n {
                assert(!bv.pages.contains(pg));
                assert(bv.pages.contains(page_of(pm, bv.ids[k2])));
                assert(false);
            }
            assert(nb.pages.take(n)[j2] == nb.pages[j2]);
            assert(page_of(pm, bv.ids[k2]) == bv.pages[j2]);
            assert(bv.pages[j1] == nb.pages[j1]);
            assert(block_before(bv.ids, pm, bv.pages[j1], k2));
            let k1 = choose|k1: int| 0 <= k1 < k2 && page_of(pm, #[trigger] bv.ids[k1]) == bv.pages[j1];
            assert(nb.ids[k1] == bv.ids[k1]);
        } else {
            assert(j1 < n);
            let k1 = choose|k: int| 0 <= k < bv.ids.len() && page_of(pm, #[trigger] bv.ids[k]) == bv.pages[j1];
            assert(nb.ids[k1] == bv.ids[k1]);
        }
    }
}

pub open spec fn all_pages_ok(cs: Seq<ChunkV>, pm: Map<BlockId, u32>) -> bool {
    forall|i: int| 0 <= i < cs.len() ==> pages_of_blocks(#[trigger] cs[i].source_pages, cs[i].block_ids, pm)
}

proof fn lemma_all_pages_push(cs: Seq<ChunkV>, c: ChunkV, pm: Map<BlockId, u32>)
    requires
        all_pages_ok(cs, pm),
        pages_of_blocks(c.source_pages, c.block_ids, pm),
    ensures
        all_pages_ok(cs.push(c), pm),
{
    assert forall|i: int| 0 <= i < cs.push(c).len() implies pages_of_blocks(
        #[trigger] cs.push(c)[i].source_pages,
        cs.push(c)[i].block_ids,
        pm,
    ) by {
        if i < cs.len() {
            assert(cs.push(c)[i] == cs[i]);
        }
    }
}

proof fn lemma_fresh_pages(path: Seq<Seq<char>>, pm: Map<BlockId, u32>)
    ensures
        pages_of_blocks(fresh(path).pages, fresh(path).ids, pm),
{
    assert(fresh(path).pages.no_duplicates());
}

proof fn lemma_add_block_pages(
    st: (BuilderV, Seq<ChunkV>),
    b: Block,
    pm: Map<BlockId, u32>,
    opts: ChunkOptions,
    cnt: spec_fn(Seq<char>) -> nat,
)
    requires
        pages_of_blocks(st.0.pages, st.0.ids, pm),
        all_pages_ok(st.1, pm),
    ensures
        pages_of_blocks(add_block_v(st, b, pm, opts, cnt).0.pages, add_block_v(st, b, pm, opts, cnt).0.ids, pm),
        all_pages_ok(add_block_v(st, b, pm, opts, cnt).1, pm),
{
    if keeps(b) {
        let t = cnt(b.content@);
        let cur = st.0;
        if has_content_v(cur) && cur.tokens + t > opts.max_tokens {
            let ov = tail_of(cur, opts.overlap as nat);
            let f = fresh(cur.path);
            lemma_fresh_pages(cur.path, pm);
            let s0 = if ov.len() > 0 && opts.overlap > 0 {
                with_overlap(f, ov, cnt(ov))
            } else {
                f
            };
            assert(s0.pages == f.pages && s0.ids == f.ids);
            lemma_all_pages_push(st.1, finish(cur), pm);
            lemma_with_block_pages(s0, b, t, pm);
        } else {
            lemma_with_block_pages(cur, b, t, pm);
        }
    }
}

proof fn lemma_chunk_children_pages(
    cs: Seq<ChildV>,
    path: Seq<Seq<char>>,
    pm: Map<BlockId, u32>,
    opts: ChunkOptions,
    cnt: spec_fn(Seq<char>) -> nat,
)
    ensures
        pages_of_blocks(chunk_children(cs, path, pm, opts, cnt).0.pages, chunk_children(cs, path, pm, opts, cnt).0.ids, pm),
        all_pages_ok(chunk_children(cs, path, pm, opts, cnt).1, pm),
    decreases cs,
{
    if cs.len() == 0 {
        lemma_fresh_pages(path, pm);
    } else {
        let d = cs.drop_last();
        lemma_chunk_children_pages(d, path, pm, opts, cnt);
        let r = chunk_children(d, path, pm, opts, cnt);
        match cs.last() {
            ChildV::Block(b) => {
                lemma_add_block_pages(r, b, pm, opts, cnt);
            },
            ChildV::Section(sub) => {
                lemma_chunk_sec_pages(sub, path, pm, opts, cnt);
                lemma_fresh_pages(path, pm);
                if has_content_v(r.0) {
                    lemma_all_pages_push(r.1, finish(r.0), pm);
                }
                let st2 = if has_content_v(r.0) {
                    (fresh(path), r.1.push(finish(r.0)))
                } else {
                    r
                };
                let sc = chunk_sec(sub, path, pm, opts, cnt);
                let out = st2.1 + sc;
                assert forall|i: int| 0 <= i < out.len() implies pages_of_blocks(
                    #[trigger] out[i].source_pages,
                    out[i].block_ids,
                    pm,
                ) by {
                    if i < st2.1.len() {
                        assert(out[i] == st2.1[i]);
                    } else {
                        assert(out[i] == sc[i - st2.1.len()]);
                    }
                }
            },
        }
    }
}

proof fn lemma_chunk_sec_pages(
    s: SectionV,
    path: Seq<Seq<char>>,
    pm: Map<BlockId, u32>,
    opts: ChunkOptions,
    cnt: spec_fn(Seq<char>) -> nat,
)
    ensures
        all_pages_ok(chunk_sec(s, path, pm, opts, cnt), pm),
    decreases s,
{
    let p = section_path(s, path);
    lemma_chunk_children_pages(s.children, p, pm, opts, cnt);
    let st = chunk_children(s.children, p, pm, opts, cnt);
    if has_content_v(st.0) {
        lemma_all_pages_push(st.1, finish(st.0), pm);
    }
}

/// Every chunk lists as source pages, each once, exactly the pages of the
/// blocks it holds, whatever counts the tokens: a block's page is listed
/// whatever page it comes from, and no page is listed without a block
/// from it.
pub proof fn lemma_chunk_source_pages(doc: Document, opts: ChunkOptions, cnt: spec_fn(Seq<char>) -> nat)
    ensures
        forall|i: int|
            0 <= i < chunks_with(doc, opts, cnt).len() ==> pages_of_blocks(
                #[trigger] chunks_with(doc, opts, cnt)[i].source_pages,
                chunks_with(doc, opts, cnt)[i].block_ids,
                page_map(doc.pages@),
            ),
{
    lemma_chunk_sec_pages(tree_of(doc), seq![], page_map(doc.pages@), opts, cnt);
}

} // verus!
