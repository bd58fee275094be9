//! The hierarchical section tree built from a document's reading order.
//!
//! A heading of level `L` opens a section that holds every following item
//! up to (not including) the next heading of level `<= L`.  Items before the
//! first heading hang from a synthetic root of level 0.

use vstd::prelude::*;
use crate::model::{Block, BlockId, BlockType, Document, Page};

verus! {

broadcast use vstd::std_specs::vec::axiom_vec_decreases_to_view;

/// A child of a [`Section`]: a nested section or a leaf block.
#[derive(Debug, PartialEq)]
pub enum SectionChild<'a> {
    Section(Section<'a>),
    Block(&'a Block),
}

/// One hierarchical region of the document.
#[derive(Debug, PartialEq)]
pub struct Section<'a> {
    /// The heading block that opens the section; `None` for the root.
    pub heading: Option<&'a Block>,
    /// Heading level (0 for the root).
    pub level: u8,
    pub children: Vec<SectionChild<'a>>,
}

/// Mathematical model of a section child.
pub enum ChildV {
    Section(SectionV),
    Block(Block),
}

/// Mathematical model of a section.
pub struct SectionV {
    pub heading: Option<Block>,
    pub level: u8,
    pub children: Seq<ChildV>,
}

pub open spec fn sview(s: Section) -> SectionV
    decreases s, 1int,
{
    SectionV { heading: match s.heading { Some(h) => Some(*h), None => None }, level: s.level, children: cviews(s.children@) }
}

pub open spec fn cviews(cs: Seq<SectionChild>) -> Seq<ChildV>
    decreases cs, 0int,
{
    if cs.len() == 0 {
        seq![]
    } else {
        cviews(cs.drop_last()).push(cview(cs.last()))
    }
}

pub open spec fn cview(c: SectionChild) -> ChildV
    decreases c, 2int,
{
    match c {
        SectionChild::Section(s) => ChildV::Section(sview(s)),
        SectionChild::Block(b) => ChildV::Block(*b),
    }
}

/// The heading level a block opens, if it is a heading.
pub open spec fn heading_level(b: Block) -> Option<u8> {
    match b.kind {
        BlockType::Heading { level } => Some(level),
        _ => None,
    }
}

/// Children of a section of level `lvl` whose body starts at `items[i]`,
/// and the index where the body ends.
pub open spec fn body(items: Seq<Block>, i: int, lvl: int) -> (Seq<ChildV>, int)
    decreases items.len() - i,
{
    if i < 0 || i >= items.len() {
        (seq![], i)
    } else {
        match heading_level(items[i]) {
            Some(level) => {
                if level <= lvl {
                    (seq![], i)
                } else {
                    let sub = body(items, i + 1, level as int);
                    if i < sub.1 <= items.len() {
                        let rest = body(items, sub.1, lvl);
                        (
                            seq![
                                ChildV::Section(
                                    SectionV { heading: Some(items[i]), level, children: sub.0 },
                                ),
                            ] + rest.0,
                            rest.1,
                        )
                    } else {
                        (seq![], i)
                    }
                }
            },
            None => {
                let rest = body(items, i + 1, lvl);
                (seq![ChildV::Block(items[i])] + rest.0, rest.1)
            },
        }
    }
}

/// A body never ends before it starts nor after the items.
pub proof fn lemma_body_end(items: Seq<Block>, i: int, lvl: int)
    requires
        0 <= i <= items.len(),
    ensures
        i <= body(items, i, lvl).1 <= items.len(),
    decreases items.len() - i,
{
    if i < items.len() {
        match heading_level(items[i]) {
            Some(level) => {
                if level > lvl {
                    lemma_body_end(items, i + 1, level as int);
                    let sub = body(items, i + 1, level as int);
                    lemma_body_end(items, sub.1, lvl);
                }
            },
            None => {
                lemma_body_end(items, i + 1, lvl);
            },
        }
    }
}

/// The root body runs to the end of the items.
pub proof fn lemma_root_body_complete(items: Seq<Block>, i: int)
    requires
        0 <= i <= items.len(),
    ensures
        body(items, i, -1).1 == items.len(),
    decreases items.len() - i,
{
    if i < items.len() {
        match heading_level(items[i]) {
            Some(level) => {
                lemma_body_end(items, i + 1, level as int);
                let sub = body(items, i + 1, level as int);
                lemma_root_body_complete(items, sub.1);
            },
            None => {
                lemma_root_body_complete(items, i + 1);
            },
        }
    }
}

/// Index of the last block of `blocks` with id `id`, if any.
pub open spec fn last_with_id(blocks: Seq<Block>, id: BlockId) -> Option<int>
    decreases blocks.len(),
{
    if blocks.len() == 0 {
        None
    } else if blocks.last().id == id {
        Some(blocks.len() - 1)
    } else {
        last_with_id(blocks.drop_last(), id)
    }
}

/// The blocks of a page in reading order: each id resolved to the last
/// block carrying it; ids without a block are skipped.
pub open spec fn page_items(blocks: Seq<Block>, order: Seq<BlockId>) -> Seq<Block>
    decreases order.len(),
{
    if order.len() == 0 {
        seq![]
    } else {
        let prev = page_items(blocks, order.drop_last());
        match last_with_id(blocks, order.last()) {
            Some(j) => prev.push(blocks[j]),
            None => prev,
        }
    }
}

/// The blocks of a document in reading order, page after page.
pub open spec fn doc_items(pages: Seq<Page>) -> Seq<Block>
    decreases pages.len(),
{
    if pages.len() == 0 {
        seq![]
    } else {
        doc_items(pages.drop_last()) + page_items(pages.last().blocks@, pages.last().reading_order@)
    }
}

/// The blocks a sequence of references points to.
pub open spec fn derefs(v: Seq<&Block>) -> Seq<Block> {
    v.map_values(|b: &Block| *b)
}

/// The section tree of a document.
pub open spec fn tree_of(doc: Document) -> SectionV {
    SectionV { heading: None, level: 0, children: body(doc_items(doc.pages@), 0, -1).0 }
}

fn find_last<'a>(blocks: &'a Vec<Block>, id: BlockId) -> (r: Option<&'a Block>)
    ensures
        match last_with_id(blocks@, id) {
            Some(j) => r == Some(&blocks@[j]),
            None => r is None,
        },
{
    let mut k = blocks.len();
    assert(blocks@.take(k as int) =~= blocks@);
    while k > 0
        invariant
            k <= blocks@.len(),
            last_with_id(blocks@, id) == last_with_id(blocks@.take(k as int), id),
        decreases k,
    {
        let b = &blocks[k - 1];
        proof {
            let t = blocks@.take(k as int);
            assert(t.drop_last() =~= blocks@.take(k - 1));
            assert(t.last() == blocks@[k - 1]);
        }
        if b.id == id {
            return Some(b);
        }
        k = k - 1;
    }
    proof {
        assert(blocks@.take(0).len() == 0);
    }
    None
}

fn collect_items<'a>(doc: &'a Document) -> (r: Vec<&'a Block>)
    ensures
        derefs(r@) == doc_items(doc.pages@),
{
    let mut out: Vec<&'a Block> = Vec::new();
    for p in 0..doc.pages.len()
        invariant
            derefs(out@) == doc_items(doc.pages@.take(p as int)),
    {
        let page = &doc.pages[p];
        proof {
            assert(doc.pages@.take(p + 1).drop_last() =~= doc.pages@.take(p as int));
        }
        let ghost before = derefs(out@);
        for q in 0..page.reading_order.len()
            invariant
                page == &doc.pages@[p as int],
                derefs(out@) == before + page_items(
                    page.blocks@,
                    page.reading_order@.take(q as int),
                ),
        {
            let id = page.reading_order[q];
            proof {
                assert(page.reading_order@.take(q + 1).drop_last() =~= page.reading_order@.take(
                    q as int,
                ));
            }
            let ghost mid = derefs(out@);
            match find_last(&page.blocks, id) {
                Some(b) => {
                    out.push(b);
                    assert(derefs(out@) =~= mid.push(*b));
                },
                None => {},
            }
        }
        assert(page.reading_order@.take(page.reading_order@.len() as int)
            =~= page.reading_order@);
    }
    assert(doc.pages@.take(doc.pages@.len() as int) =~= doc.pages@);
    out
}

/// Appends the children of the body starting at `items[i]` to `out`, and
/// returns where the body ends.
fn parse_body<'a>(items: &Vec<&'a Block>, i: usize, lvl: i32, out: &mut Vec<SectionChild<'a>>) -> (r: usize)
    requires
        i <= items@.len(),
        -1 <= lvl <= 255,
    ensures
        r as int == body(derefs(items@), i as int, lvl as int).1,
        cviews(final(out)@) == cviews(old(out)@) + body(derefs(items@), i as int, lvl as int).0,
    decreases items@.len() - i,
{
    let ghost its = derefs(items@);
    let ghost out0 = cviews(out@);
    let ghost target = body(its, i as int, lvl as int);
    proof {
        lemma_body_end(its, i as int, lvl as int);
    }
    let mut k = i;
    loop
        invariant
            i <= k <= items@.len(),
            its == derefs(items@),
            target == body(its, i as int, lvl as int),
            out0 == cviews(old(out)@),
            -1 <= lvl <= 255,
            body(its, k as int, lvl as int).1 == target.1,
            cviews(out@) + body(its, k as int, lvl as int).0 == out0 + target.0,
        decreases items@.len() - k,
    {
        if k >= items.len() {
            proof {
                assert(body(its, k as int, lvl as int).0 =~= Seq::<ChildV>::empty());
                assert(cviews(out@) + Seq::<ChildV>::empty() =~= cviews(out@));
            }
            return k;
        }
        let b = items[k];
        assert(its[k as int] == *b);
        match b.kind {
            BlockType::Heading { level } => {
                if (level as i32) <= lvl {
                    proof {
                        assert(heading_level(its[k as int]) == Some(level));
                        assert(body(its, k as int, lvl as int).0 =~= Seq::<ChildV>::empty());
                        assert(cviews(out@) + Seq::<ChildV>::empty() =~= cviews(out@));
                    }
                    return k;
                }
                let mut sub: Vec<SectionChild<'a>> = Vec::new();
                let j = parse_body(items, k + 1, level as i32, &mut sub);
                proof {
                    assert(cviews(Seq::<SectionChild>::empty()) =~= Seq::<ChildV>::empty());
                    assert(cviews(sub@) =~= body(its, k + 1, level as int).0);
                    lemma_body_end(its, k + 1, level as int);
                }
                let ghost before = cviews(out@);
                let ghost prev = out@;
                let sec = Section { heading: Some(b), level, children: sub };
                out.push(SectionChild::Section(sec));
                proof {
                    assert(heading_level(its[k as int]) == Some(level));
                    assert(out@.drop_last() =~= prev);
                    assert(cviews(out@) == before.push(cview(SectionChild::Section(sec))));
                    let rest = body(its, j as int, lvl as int);
                    assert(before.push(cview(SectionChild::Section(sec))) + rest.0 =~= before + (
                    seq![cview(SectionChild::Section(sec))] + rest.0));
                }
                k = j;
            },
            _ => {
                let ghost before = cviews(out@);
                let ghost prev = out@;
                out.push(SectionChild::Block(b));
                proof {
                    assert(heading_level(its[k as int]) is None);
                    assert(out@.drop_last() =~= prev);
                    assert(out@.last() == SectionChild::Block(b));
                    assert(cview(SectionChild::Block(b)) == ChildV::Block(*b));
                    assert(cviews(out@) == before.push(ChildV::Block(*b)));
                    let rest = body(its, k + 1, lvl as int);
                    assert(before.push(ChildV::Block(*b)) + rest.0 =~= before + (seq![ChildV::Block(*b)] + rest.0));
                }
                k = k + 1;
            },
        }
    }
}

/// Build the section tree of `doc` from its reading order.
pub fn build_tree<'a>(doc: &'a Document) -> (r: Section<'a>)
    ensures
        sview(r) == tree_of(*doc),
{
    let items = collect_items(doc);
    let mut children: Vec<SectionChild<'a>> = Vec::new();
    parse_body(&items, 0, -1, &mut children);
    proof {
        assert(cviews(Seq::<SectionChild>::empty()) =~= Seq::<ChildV>::empty());
        assert(cviews(children@) =~= body(doc_items(doc.pages@), 0, -1).0);
    }
    Section { heading: None, level: 0, children }
}


/// Leaf blocks of a list of children, depth first.
pub open spec fn leaves_of(cs: Seq<ChildV>) -> Seq<Block>
    decreases cs, 0int,
{
    if cs.len() == 0 {
        seq![]
    } else {
        leaves_of(cs.drop_last()) + leaf_of(cs.last())
    }
}

pub open spec fn leaf_of(c: ChildV) -> Seq<Block>
    decreases c, 1int,
{
    match c {
        ChildV::Block(b) => seq![b],
        ChildV::Section(s) => leaves_of(s.children),
    }
}

/// Nesting depth of headings of a list of children: the largest depth of
/// a nested section.
pub open spec fn max_depth_of(cs: Seq<ChildV>) -> nat
    decreases cs, 0int,
{
    if cs.len() == 0 {
        0
    } else {
        let a = max_depth_of(cs.drop_last());
        let b = depth_of_child(cs.last());
        if a >= b { a } else { b }
    }
}

pub open spec fn depth_of_child(c: ChildV) -> nat
    decreases c, 1int,
{
    match c {
        ChildV::Block(_) => 0,
        ChildV::Section(s) => section_depth(s),
    }
}

/// Depth of a section: 1 for its own heading (0 for the root) plus the
/// depth of its deepest nested section, capped at 255.
pub open spec fn section_depth(s: SectionV) -> nat
    decreases s, 2int,
{
    let own: nat = if s.heading is Some { 1 } else { 0 };
    let d = own + max_depth_of(s.children);
    if d > 255 { 255 } else { d }
}

impl<'a> Section<'a> {
    /// The heading text; empty for the root.
    pub fn title(&self) -> (r: &str)
        ensures
            r@ == match self.heading {
                Some(h) => h.content@,
                None => Seq::<char>::empty(),
            },
    {
        match self.heading {
            Some(h) => h.content.as_str(),
            None => {
                proof {
                    reveal_strlit("");
                }
                ""
            },
        }
    }

    /// Every leaf block of the subtree, in reading order (headings of
    /// nested sections are not leaves).
    pub fn iter_blocks(&self) -> (r: Vec<&'a Block>)
        ensures
            derefs(r@) == leaves_of(sview(*self).children),
    {
        let mut out: Vec<&'a Block> = Vec::new();
        push_leaves(&self.children, &mut out);
        assert(derefs(Seq::<&Block>::empty()) =~= Seq::<Block>::empty());
        assert(Seq::<Block>::empty() + leaves_of(cviews(self.children@)) =~= leaves_of(
            cviews(self.children@),
        ));
        out
    }

    /// Maximum depth of nested headings rooted here: a root with one H1
    /// child has depth 1; H1 > H2 > H3 has depth 3.
    pub fn depth(&self) -> (r: u8)
        ensures
            r == section_depth(sview(*self)),
        decreases self,
    {
        let mut max_child: u8 = 0;
        let mut i: usize = 0;
        while i < self.children.len()
            invariant
                i <= self.children@.len(),
                max_child as nat == (if max_depth_of(cviews(self.children@.take(i as int))) > 255 {
                    255
                } else {
                    max_depth_of(cviews(self.children@.take(i as int)))
                }),
            decreases self.children@.len() - i,
        {
            proof {
                let cs = self.children@;
                assert(cs.take(i + 1).drop_last() =~= cs.take(i as int));
                let cv = cviews(cs.take(i as int));
                assert(cviews(cs.take(i + 1)) == cv.push(cview(cs[i as int])));
                assert(cv.push(cview(cs[i as int])).drop_last() =~= cv);
            }
            match &self.children[i] {
                SectionChild::Section(sub) => {
                    assert(decreases_to!(self => self.children));
                    let d = sub.depth();
                    assert(depth_of_child(cview(self.children@[i as int])) == d as nat);
                    if d > max_child {
                        max_child = d;
                    }
                },
                SectionChild::Block(_) => {
                    assert(depth_of_child(cview(self.children@[i as int])) == 0);
                },
            }
            i = i + 1;
        }
        assert(self.children@.take(self.children@.len() as int) =~= self.children@);
        let self_depth: u8 = if self.heading.is_some() { 1 } else { 0 };
        if max_child == 255 { 255 } else { self_depth + max_child }
    }
}

fn push_leaves<'a>(cs: &Vec<SectionChild<'a>>, out: &mut Vec<&'a Block>)
    ensures
        derefs(final(out)@) == derefs(old(out)@) + leaves_of(cviews(cs@)),
    decreases cs,
{
    let ghost o = derefs(out@);
    let mut i: usize = 0;
    while i < cs.len()
        invariant
            i <= cs@.len(),
            o == derefs(old(out)@),
            derefs(out@) == o + leaves_of(cviews(cs@.take(i as int))),
        decreases cs@.len() - i,
    {
        proof {
            assert(cs@.take(i + 1).drop_last() =~= cs@.take(i as int));
            assert(cviews(cs@.take(i + 1)) == cviews(cs@.take(i as int)).push(cview(cs@[i as int])));
            let cv = cviews(cs@.take(i as int));
            assert(cv.push(cview(cs@[i as int])).drop_last() =~= cv);
            assert(leaves_of(cv.push(cview(cs@[i as int]))) == leaves_of(cv) + leaf_of(cview(cs@[i as int])));
        }
        let ghost before = derefs(out@);
        match &cs[i] {
            SectionChild::Section(sub) => {
                assert(decreases_to!(cs => cs@[i as int]));
                push_leaves(&sub.children, out);
                proof {
                    assert(before + leaves_of(cviews(sub.children@)) == o + leaves_of(cviews(cs@.take(i as int))) + leaf_of(cview(cs@[i as int])));
                    assert(o + leaves_of(cviews(cs@.take(i as int))) + leaf_of(cview(cs@[i as int])) =~= o + (leaves_of(cviews(cs@.take(i as int))) + leaf_of(cview(cs@[i as int]))));
                }
            },
            SectionChild::Block(b) => {
                let ghost prev = out@;
                out.push(*b);
                proof {
                    assert(derefs(out@) =~= derefs(prev).push(**b));
                    assert(o + leaves_of(cviews(cs@.take(i as int))) + seq![**b] =~= o + (leaves_of(cviews(cs@.take(i as int))) + seq![**b]));
                }
            },
        }
        i = i + 1;
    }
    assert(cs@.take(cs@.len() as int) =~= cs@);
}


/// Pre-order listing of a list of children: each nested section contributes
/// its heading followed by its own listing.
pub open spec fn flatten_of(cs: Seq<ChildV>) -> Seq<Block>
    decreases cs, 0int,
{
    if cs.len() == 0 {
        seq![]
    } else {
        flatten_of(cs.drop_last()) + flatten_child(cs.last())
    }
}

pub open spec fn flatten_child(c: ChildV) -> Seq<Block>
    decreases c, 1int,
{
    match c {
        ChildV::Block(b) => seq![b],
        ChildV::Section(s) => match s.heading {
            Some(h) => seq![h] + flatten_of(s.children),
            None => flatten_of(s.children),
        },
    }
}

proof fn lemma_flatten_concat(a: Seq<ChildV>, b: Seq<ChildV>)
    ensures
        flatten_of(a + b) == flatten_of(a) + flatten_of(b),
    decreases b.len(),
{
    if b.len() == 0 {
        assert(a + b =~= a);
        assert(flatten_of(a) + flatten_of(b) =~= flatten_of(a));
    } else {
        assert((a + b).drop_last() =~= a + b.drop_last());
        assert((a + b).last() == b.last());
        lemma_flatten_concat(a, b.drop_last());
        assert(flatten_of(a) + flatten_of(b.drop_last()) + flatten_child(b.last()) =~= flatten_of(a) + (flatten_of(b.drop_last()) + flatten_child(b.last())));
    }
}

proof fn lemma_flatten_single(c: ChildV)
    ensures
        flatten_of(seq![c]) == flatten_child(c),
{
    assert(seq![c].drop_last() =~= Seq::<ChildV>::empty());
    assert(seq![c].last() == c);
    assert(flatten_of(Seq::<ChildV>::empty()) == Seq::<Block>::empty());
    assert(Seq::<Block>::empty() + flatten_child(c) =~= flatten_child(c));
}

proof fn lemma_body_flatten(items: Seq<Block>, i: int, lvl: int)
    requires
        0 <= i <= items.len(),
    ensures
        flatten_of(body(items, i, lvl).0) == items.subrange(i, body(items, i, lvl).1),
    decreases items.len() - i,
{
    lemma_body_end(items, i, lvl);
    if i == items.len() {
        assert(items.subrange(i, i) =~= Seq::<Block>::empty());
    } else {
        match heading_level(items[i]) {
            Some(level) => {
                if level <= lvl {
                    assert(items.subrange(i, i) =~= Seq::<Block>::empty());
                } else {
                    lemma_body_end(items, i + 1, level as int);
                    let sub = body(items, i + 1, level as int);
                    lemma_body_flatten(items, i + 1, level as int);
                    lemma_body_end(items, sub.1, lvl);
                    lemma_body_flatten(items, sub.1, lvl);
                    let rest = body(items, sub.1, lvl);
                    let c = ChildV::Section(SectionV { heading: Some(items[i]), level, children: sub.0 });
                    lemma_flatten_concat(seq![c], rest.0);
                    lemma_flatten_single(c);
                    assert(seq![items[i]] + items.subrange(i + 1, sub.1) + items.subrange(sub.1, rest.1)
                        =~= items.subrange(i, rest.1));
                }
            },
            None => {
                lemma_body_flatten(items, i + 1, lvl);
                lemma_body_end(items, i + 1, lvl);
                let rest = body(items, i + 1, lvl);
                lemma_flatten_concat(seq![ChildV::Block(items[i])], rest.0);
                lemma_flatten_single(ChildV::Block(items[i]));
                assert(seq![items[i]] + items.subrange(i + 1, rest.1) =~= items.subrange(i, rest.1));
            },
        }
    }
}

/// Building the section tree loses, duplicates and reorders nothing: the
/// pre-order listing of the tree (headings included) is exactly the
/// document's blocks in reading order.
pub proof fn lemma_tree_lists_reading_order(doc: Document)
    ensures
        flatten_of(tree_of(doc).children) == doc_items(doc.pages@),
{
    let items = doc_items(doc.pages@);
    lemma_body_flatten(items, 0, -1);
    lemma_root_body_complete(items, 0);
    assert(items.subrange(0, items.len() as int) =~= items);
}

/// Number of reading-order entries of a page that name one of its blocks.
pub open spec fn resolved_count(blocks: Seq<Block>, order: Seq<BlockId>) -> nat
    decreases order.len(),
{
    if order.len() == 0 {
        0
    } else {
        resolved_count(blocks, order.drop_last()) + if last_with_id(blocks, order.last()) is Some {
            1nat
        } else {
            0nat
        }
    }
}

/// Number of reading-order entries, over all pages, that name a block of
/// their page.
pub open spec fn resolved_total(pages: Seq<Page>) -> nat
    decreases pages.len(),
{
    if pages.len() == 0 {
        0
    } else {
        resolved_total(pages.drop_last()) + resolved_count(pages.last().blocks@, pages.last().reading_order@)
    }
}

proof fn lemma_page_items_count(blocks: Seq<Block>, order: Seq<BlockId>)
    ensures
        page_items(blocks, order).len() == resolved_count(blocks, order),
    decreases order.len(),
{
    if order.len() > 0 {
        lemma_page_items_count(blocks, order.drop_last());
    }
}

proof fn lemma_page_items_at(blocks: Seq<Block>, order: Seq<BlockId>, q: int, j: int)
    requires
        0 <= q < order.len(),
        last_with_id(blocks, order[q]) == Some(j),
    ensures
        resolved_count(blocks, order.take(q)) < page_items(blocks, order).len(),
        page_items(blocks, order)[resolved_count(blocks, order.take(q)) as int] == blocks[j],
    decreases order.len(),
{
    let d = order.drop_last();
    let prev = page_items(blocks, d);
    lemma_page_items_count(blocks, d);
    if q < order.len() - 1 {
        assert(d[q] == order[q]);
        assert(d.take(q) =~= order.take(q));
        lemma_page_items_at(blocks, d, q, j);
        let i = resolved_count(blocks, order.take(q)) as int;
        match last_with_id(blocks, order.last()) {
            Some(x) => {
                assert(prev.push(blocks[x])[i] == prev[i]);
            },
            None => {},
        }
    } else {
        assert(order.last() == order[q]);
        assert(order.take(q) =~= d);
        assert(page_items(blocks, order) == prev.push(blocks[j]));
    }
}

proof fn lemma_doc_items_count(pages: Seq<Page>)
    ensures
        doc_items(pages).len() == resolved_total(pages),
    decreases pages.len(),
{
    if pages.len() > 0 {
        lemma_doc_items_count(pages.drop_last());
        lemma_page_items_count(pages.last().blocks@, pages.last().reading_order@);
    }
}

proof fn lemma_doc_items_at(pages: Seq<Page>, p: int, q: int, j: int)
    requires
        0 <= p < pages.len(),
        0 <= q < pages[p].reading_order@.len(),
        last_with_id(pages[p].blocks@, pages[p].reading_order@[q]) == Some(j),
    ensures
        resolved_total(pages.take(p)) + resolved_count(pages[p].blocks@, pages[p].reading_order@.take(q))
            < doc_items(pages).len(),
        doc_items(pages)[resolved_total(pages.take(p)) + resolved_count(
            pages[p].blocks@,
            pages[p].reading_order@.take(q),
        ) as int] == pages[p].blocks@[j],
    decreases pages.len(),
{
    let d = pages.drop_last();
    let last = page_items(pages.last().blocks@, pages.last().reading_order@);
    lemma_doc_items_count(d);
    if p < pages.len() - 1 {
        assert(d[p] == pages[p]);
        assert(d.take(p) =~= pages.take(p));
        lemma_doc_items_at(d, p, q, j);
    } else {
        assert(pages.last() == pages[p]);
        assert(pages.take(p) =~= d);
        lemma_page_items_at(pages[p].blocks@, pages[p].reading_order@, q, j);
    }
}

/// The section tree holds every page, in page order, not just the first:
/// listing the tree depth first gives, page after page, each entry of the
/// page's reading order that names a block of that page, resolved to the
/// last block with the id.  Entry `q` of page `p` is found after the
/// entries of all earlier pages and the resolved entries before it on its
/// own page, and the tree holds exactly as many blocks as there are such
/// entries over all pages.
pub proof fn lemma_tree_holds_every_page(doc: Document, p: int, q: int)
    requires
        0 <= p < doc.pages@.len(),
        0 <= q < doc.pages@[p].reading_order@.len(),
        last_with_id(doc.pages@[p].blocks@, doc.pages@[p].reading_order@[q]) is Some,
    ensures
        flatten_of(tree_of(doc).children).len() == resolved_total(doc.pages@),
        flatten_of(tree_of(doc).children)[resolved_total(doc.pages@.take(p)) + resolved_count(
            doc.pages@[p].blocks@,
            doc.pages@[p].reading_order@.take(q),
        ) as int] == doc.pages@[p].blocks@[last_with_id(doc.pages@[p].blocks@, doc.pages@[p].reading_order@[q])->0],
{
    lemma_tree_lists_reading_order(doc);
    lemma_doc_items_count(doc.pages@);
    let j = last_with_id(doc.pages@[p].blocks@, doc.pages@[p].reading_order@[q])->0;
    lemma_doc_items_at(doc.pages@, p, q, j);
}

} // verus!
