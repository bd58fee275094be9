//! Graph-RAG rendering: a flat `{ meta, nodes, edges }` shape.
//!
//! One node per block of the section tree, carrying its id, kebab-case
//! type, content, box, page, provenance and semantic tags.  Edges:
//! `contains` (section to child), `follows` (reading-order successor
//! inside a section) and `caption-of` (figure to adjacent caption).

use vstd::prelude::*;
use std::collections::HashMap;
use crate::geometry::BBox;
use crate::model::{Block, BlockId, BlockType, DocMeta, Document, Page, Provenance, ProvenanceV};
use crate::sections::{
    body, build_tree, cview, cviews, doc_items, flatten_child, flatten_of, heading_level, lemma_body_end,
    lemma_tree_lists_reading_order, sview, tree_of, ChildV, Section, SectionChild, SectionV,
};
use crate::strings::{dec, push_dec, push_str, str_views};

verus! {

broadcast use {
    vstd::std_specs::vec::axiom_vec_decreases_to_view,
    vstd::std_specs::hash::group_hash_axioms,
};

/// Kind of a graph edge.
#[derive(Copy, Clone, Debug, PartialEq, Eq, Hash, Structural)]
pub enum EdgeRelation {
    Contains,
    Follows,
    CaptionOf,
    References,
}

/// A directed, typed edge between two blocks.
#[derive(Copy, Clone, Debug, PartialEq, Eq, Structural)]
pub struct GraphEdge {
    pub from: BlockId,
    pub to: BlockId,
    pub relation: EdgeRelation,
}

/// One block as a graph node.
#[derive(Clone, Debug, PartialEq)]
pub struct GraphNode {
    pub id: BlockId,
    pub node_type: String,
    pub content: String,
    pub bbox: BBox,
    pub page: u32,
    pub provenance: Provenance,
    pub tags: Vec<String>,
}

/// Mathematical view of a [`GraphNode`].
pub struct NodeV {
    pub id: BlockId,
    pub node_type: Seq<char>,
    pub content: Seq<char>,
    pub bbox: BBox,
    pub page: u32,
    pub provenance: ProvenanceV,
    pub tags: Seq<Seq<char>>,
}

impl View for GraphNode {
    type V = NodeV;

    open spec fn view(&self) -> NodeV {
        NodeV {
            id: self.id,
            node_type: self.node_type@,
            content: self.content@,
            bbox: self.bbox,
            page: self.page,
            provenance: self.provenance@,
            tags: str_views(self.tags@),
        }
    }
}

pub open spec fn node_views(v: Seq<GraphNode>) -> Seq<NodeV> {
    v.map_values(|n: GraphNode| n@)
}

/// The whole graph of a document.
#[derive(Clone, Debug, PartialEq)]
pub struct GraphDocument {
    pub meta: DocMeta,
    pub nodes: Vec<GraphNode>,
    pub edges: Vec<GraphEdge>,
}

/// Kebab-case name of a block type (`heading-N` for headings).
pub open spec fn kebab(kind: BlockType) -> Seq<char> {
    match kind {
        BlockType::Heading { level } => "heading-"@ + dec(level as nat),
        BlockType::Paragraph => "paragraph"@,
        BlockType::List => "list"@,
        BlockType::Table => "table"@,
        BlockType::Figure => "figure"@,
        BlockType::Caption => "caption"@,
        BlockType::Equation => "equation"@,
        BlockType::CodeListing => "code-listing"@,
        BlockType::Footnote => "footnote"@,
        BlockType::Reference => "reference"@,
        BlockType::Header => "header"@,
        BlockType::Footer => "footer"@,
        BlockType::PageNumber => "page-number"@,
    }
}

/// Semantic tags of a block type.
pub open spec fn tags_spec(kind: BlockType) -> Seq<Seq<char>> {
    match kind {
        BlockType::Heading { .. } => seq!["section"@],
        BlockType::Figure => seq!["figure"@],
        BlockType::Equation => seq!["equation"@],
        BlockType::Reference => seq!["citation"@],
        BlockType::Table => seq!["table"@],
        _ => seq![],
    }
}

/// `base` followed by each tag of `extras` that is not already present.
pub open spec fn add_tags(base: Seq<Seq<char>>, extras: Seq<Seq<char>>) -> Seq<Seq<char>>
    decreases extras.len(),
{
    if extras.len() == 0 {
        base
    } else {
        let r = add_tags(base, extras.drop_last());
        if r.contains(extras.last()) {
            r
        } else {
            r.push(extras.last())
        }
    }
}

/// Blocks of a page list inserted page after page into a map from block
/// id to page number; later entries overwrite earlier ones.
pub open spec fn page_map(pages: Seq<Page>) -> Map<BlockId, u32>
    decreases pages.len(),
{
    if pages.len() == 0 {
        Map::empty()
    } else {
        insert_blocks(page_map(pages.drop_last()), pages.last().blocks@, pages.last().number)
    }
}

pub open spec fn insert_blocks(m: Map<BlockId, u32>, bs: Seq<Block>, n: u32) -> Map<BlockId, u32>
    decreases bs.len(),
{
    if bs.len() == 0 {
        m
    } else {
        insert_blocks(m, bs.drop_last(), n).insert(bs.last().id, n)
    }
}

/// The node of `b`: page from `pm` (0 when unknown), tags of its type
/// plus `extras`.
pub open spec fn node_of(b: Block, pm: Map<BlockId, u32>, extras: Seq<Seq<char>>) -> NodeV {
    NodeV {
        id: b.id,
        node_type: kebab(b.kind),
        content: b.content@,
        bbox: b.bbox,
        page: if pm.contains_key(b.id) { pm[b.id] } else { 0 },
        provenance: b.provenance@,
        tags: add_tags(tags_spec(b.kind), extras),
    }
}

pub open spec fn contains_edge(anchor: Option<BlockId>, parent: Option<BlockId>, to: BlockId) -> Seq<GraphEdge> {
    match anchor {
        Some(a) => seq![GraphEdge { from: a, to, relation: EdgeRelation::Contains }],
        None => match parent {
            Some(p) => seq![GraphEdge { from: p, to, relation: EdgeRelation::Contains }],
            None => seq![],
        },
    }
}

pub open spec fn follows_edge(prev: Option<BlockId>, to: BlockId) -> Seq<GraphEdge> {
    match prev {
        Some(p) => seq![GraphEdge { from: p, to, relation: EdgeRelation::Follows }],
        None => seq![],
    }
}

pub open spec fn or_else(a: Option<BlockId>, b: Option<BlockId>) -> Option<BlockId> {
    match a {
        Some(x) => Some(x),
        None => b,
    }
}

pub open spec fn anchor_of(s: SectionV) -> Option<BlockId> {
    match s.heading {
        Some(h) => Some(h.id),
        None => None,
    }
}

/// Nodes and edges of a section hung below `parent`.
pub open spec fn walk_sec(s: SectionV, parent: Option<BlockId>, pm: Map<BlockId, u32>) -> (Seq<NodeV>, Seq<GraphEdge>)
    decreases s,
{
    let c = walk_children(s.children, anchor_of(s), parent, pm);
    match s.heading {
        Some(h) => (
            seq![node_of(h, pm, seq!["section"@])] + c.0,
            match parent {
                Some(p) => seq![GraphEdge { from: p, to: h.id, relation: EdgeRelation::Contains }],
                None => seq![],
            } + c.1,
        ),
        None => (c.0, c.1),
    }
}

/// Nodes, edges and last reading-order anchor of a list of children.
pub open spec fn walk_children(
    cs: Seq<ChildV>,
    anchor: Option<BlockId>,
    parent: Option<BlockId>,
    pm: Map<BlockId, u32>,
) -> (Seq<NodeV>, Seq<GraphEdge>, Option<BlockId>)
    decreases cs,
{
    if cs.len() == 0 {
        (seq![], seq![], None)
    } else {
        let r = walk_children(cs.drop_last(), anchor, parent, pm);
        match cs.last() {
            ChildV::Block(b) => (
                r.0.push(node_of(b, pm, tags_spec(b.kind))),
                r.1 + contains_edge(anchor, parent, b.id) + follows_edge(r.2, b.id),
                Some(b.id),
            ),
            ChildV::Section(sub) => {
                let w = walk_sec(sub, or_else(anchor, parent), pm);
                match sub.heading {
                    Some(h) => (r.0 + w.0, r.1 + w.1 + follows_edge(r.2, h.id), Some(h.id)),
                    None => (r.0 + w.0, r.1 + w.1, r.2),
                }
            },
        }
    }
}

/// Index of the first block of `blocks` with id `id`, if any.
pub open spec fn first_with_id(blocks: Seq<Block>, id: BlockId) -> Option<int>
    decreases blocks.len(),
{
    if blocks.len() == 0 {
        None
    } else {
        match first_with_id(blocks.drop_last(), id) {
            Some(j) => Some(j),
            None => if blocks.last().id == id {
                Some(blocks.len() - 1)
            } else {
                None
            },
        }
    }
}

/// `caption-of` edges of one page, and the last block seen.
pub open spec fn caption_page(blocks: Seq<Block>, order: Seq<BlockId>) -> (Seq<GraphEdge>, Option<(BlockId, BlockType)>)
    decreases order.len(),
{
    if order.len() == 0 {
        (seq![], None)
    } else {
        let r = caption_page(blocks, order.drop_last());
        match first_with_id(blocks, order.last()) {
            None => r,
            Some(j) => {
                let b = blocks[j];
                let e = match r.1 {
                    Some(prev) => if prev.1 == BlockType::Figure && b.kind == BlockType::Caption {
                        seq![GraphEdge { from: prev.0, to: b.id, relation: EdgeRelation::CaptionOf }]
                    } else if prev.1 == BlockType::Caption && b.kind == BlockType::Figure {
                        seq![GraphEdge { from: b.id, to: prev.0, relation: EdgeRelation::CaptionOf }]
                    } else {
                        seq![]
                    },
                    None => seq![],
                };
                (r.0 + e, Some((b.id, b.kind)))
            },
        }
    }
}

/// `caption-of` edges of all pages.
pub open spec fn caption_edges(pages: Seq<Page>) -> Seq<GraphEdge>
    decreases pages.len(),
{
    if pages.len() == 0 {
        seq![]
    } else {
        caption_edges(pages.drop_last()) + caption_page(
            pages.last().blocks@,
            pages.last().reading_order@,
        ).0
    }
}

/// The graph of a document.
pub open spec fn graph_of(doc: Document) -> (Seq<NodeV>, Seq<GraphEdge>) {
    let w = walk_sec(tree_of(doc), None, page_map(doc.pages@));
    (w.0, w.1 + caption_edges(doc.pages@))
}

fn text(s: &str) -> (r: String)
    ensures
        r@ == s@,
{
    let mut r = String::new();
    push_str(&mut r, s);
    r
}

/// Kebab-case name of a block type.
pub fn block_type_kebab(kind: &BlockType) -> (r: String)
    ensures
        r@ == kebab(*kind),
{
    match kind {
        BlockType::Heading { level } => {
            let mut s = text("heading-");
            push_dec(&mut s, *level as u64);
            s
        },
        BlockType::Paragraph => text("paragraph"),
        BlockType::List => text("list"),
        BlockType::Table => text("table"),
        BlockType::Figure => text("figure"),
        BlockType::Caption => text("caption"),
        BlockType::Equation => text("equation"),
        BlockType::CodeListing => text("code-listing"),
        BlockType::Footnote => text("footnote"),
        BlockType::Reference => text("reference"),
        BlockType::Header => text("header"),
        BlockType::Footer => text("footer"),
        BlockType::PageNumber => text("page-number"),
    }
}

fn one_tag(s: &str) -> (r: Vec<String>)
    ensures
        str_views(r@) == seq![s@],
{
    let mut v: Vec<String> = Vec::new();
    v.push(text(s));
    assert(str_views(v@) =~= seq![s@]);
    v
}

/// Semantic tags of a block.
pub fn tags_for(block: &Block) -> (r: Vec<String>)
    ensures
        str_views(r@) == tags_spec(block.kind),
{
    match block.kind {
        BlockType::Heading { .. } => one_tag("section"),
        BlockType::Figure => one_tag("figure"),
        BlockType::Equation => one_tag("equation"),
        BlockType::Reference => one_tag("citation"),
        BlockType::Table => one_tag("table"),
        _ => {
            let v: Vec<String> = Vec::new();
            assert(str_views(v@) =~= Seq::<Seq<char>>::empty());
            v
        },
    }
}

fn page_lookup(block_page: &HashMap<BlockId, u32>, id: BlockId) -> (r: u32)
    ensures
        r == (if block_page@.contains_key(id) { block_page@[id] } else { 0 }),
{
    match block_page.get(&id) {
        Some(p) => *p,
        None => 0,
    }
}

fn make_node(block: &Block, block_page: &HashMap<BlockId, u32>, tags: &Vec<String>) -> (r: GraphNode)
    ensures
        r@ == node_of(*block, block_page@, str_views(tags@)),
{
    let mut all = tags_for(block);
    let ghost base = tags_spec(block.kind);
    for i in 0..tags.len()
        invariant
            base == tags_spec(block.kind),
            str_views(all@) == add_tags(base, str_views(tags@.take(i as int))),
    {
        let extra = &tags[i];
        proof {
            assert(str_views(tags@.take(i + 1)).drop_last() =~= str_views(tags@.take(i as int)));
            assert(str_views(tags@.take(i + 1)).last() == extra@);
        }
        let mut found = false;
        for j in 0..all.len()
            invariant
                found == (exists|k: int| 0 <= k < j && all@[k]@ == extra@),
        {
            if all[j] == *extra {
                found = true;
            }
        }
        let ghost sv = str_views(all@);
        proof {
            if found {
                let k = choose|k: int| 0 <= k < all@.len() && all@[k]@ == extra@;
                assert(sv[k] == extra@);
            } else {
                assert forall|k: int| 0 <= k < sv.len() implies sv[k] != extra@ by {
                    assert(sv[k] == all@[k]@);
                }
            }
        }
        if !found {
            all.push(extra.clone());
            assert(str_views(all@) =~= sv.push(extra@));
        }
    }
    assert(tags@.take(tags@.len() as int) =~= tags@);
    GraphNode {
        id: block.id,
        node_type: block_type_kebab(&block.kind),
        content: block.content.clone(),
        bbox: block.bbox,
        page: page_lookup(block_page, block.id),
        provenance: block.provenance.duplicate(),
        tags: all,
    }
}

pub(crate) fn index_block_page(doc: &Document) -> (r: HashMap<BlockId, u32>)
    ensures
        r@ == page_map(doc.pages@),
{
    let mut m: HashMap<BlockId, u32> = HashMap::new();
    for p in 0..doc.pages.len()
        invariant
            m@ == page_map(doc.pages@.take(p as int)),
    {
        let page = &doc.pages[p];
        let ghost m0 = m@;
        proof {
            assert(doc.pages@.take(p + 1).drop_last() =~= doc.pages@.take(p as int));
            assert(page.blocks@.take(0) =~= Seq::<Block>::empty());
        }
        for q in 0..page.blocks.len()
            invariant
                page == &doc.pages@[p as int],
                m@ == insert_blocks(m0, page.blocks@.take(q as int), page.number),
        {
            proof {
                assert(page.blocks@.take(q + 1).drop_last() =~= page.blocks@.take(q as int));
            }
            m.insert(page.blocks[q].id, page.number);
        }
        assert(page.blocks@.take(page.blocks@.len() as int) =~= page.blocks@);
    }
    assert(doc.pages@.take(doc.pages@.len() as int) =~= doc.pages@);
    m
}

fn push_edge(edges: &mut Vec<GraphEdge>, from: BlockId, to: BlockId, relation: EdgeRelation)
    ensures
        final(edges)@ == old(edges)@.push(GraphEdge { from, to, relation }),
{
    edges.push(GraphEdge { from, to, relation });
}

/// Appends the nodes and edges of `section`, hung below `parent_id`.
pub fn walk(
    section: &Section,
    parent_id: Option<BlockId>,
    nodes: &mut Vec<GraphNode>,
    edges: &mut Vec<GraphEdge>,
    block_page: &HashMap<BlockId, u32>,
)
    ensures
        node_views(final(nodes)@) == node_views(old(nodes)@) + walk_sec(sview(*section), parent_id, block_page@).0,
        final(edges)@ == old(edges)@ + walk_sec(sview(*section), parent_id, block_page@).1,
    decreases section,
{
    let ghost n0 = node_views(nodes@);
    let ghost e0 = edges@;
    let ghost pm = block_page@;
    let ghost sv = sview(*section);
    let anchor: Option<BlockId> = match section.heading {
        Some(h) => Some(h.id),
        None => None,
    };
    match section.heading {
        Some(heading) => {
            let extras = one_tag("section");
            let node = make_node(heading, block_page, &extras);
            nodes.push(node);
            match parent_id {
                Some(pid) => push_edge(edges, pid, heading.id, EdgeRelation::Contains),
                None => {},
            }
        },
        None => {},
    }
    let ghost n1 = node_views(nodes@);
    let ghost e1 = edges@;
    proof {
        assert(node_views(nodes@) =~= n1);
    }
    let mut prev: Option<BlockId> = None;
    let mut i: usize = 0;
    assert(cviews(section.children@.take(0)) =~= Seq::<ChildV>::empty());
    assert(n1 + Seq::<NodeV>::empty() =~= n1);
    assert(e1 + Seq::<GraphEdge>::empty() =~= e1);
    while i < section.children.len()
        invariant
            i <= section.children@.len(),
            pm == block_page@,
            sv == sview(*section),
            anchor == anchor_of(sv),
            ({
                let w = walk_children(cviews(section.children@.take(i as int)), anchor, parent_id, pm);
                &&& node_views(nodes@) == n1 + w.0
                &&& edges@ == e1 + w.1
                &&& prev == w.2
            }),
        decreases section.children@.len() - i,
    {
        let ghost cs = cviews(section.children@.take(i as int));
        let ghost w = walk_children(cs, anchor, parent_id, pm);
        proof {
            let all = section.children@;
            assert(all.take(i + 1).drop_last() =~= all.take(i as int));
            assert(cviews(all.take(i + 1)) == cs.push(cview(all[i as int])));
            assert(cs.push(cview(all[i as int])).drop_last() =~= cs);
        }
        let ghost nb = node_views(nodes@);
        let ghost eb = edges@;
        match &section.children[i] {
            SectionChild::Block(b) => {
                let tags = tags_for(b);
                let node = make_node(b, block_page, &tags);
                nodes.push(node);
                assert(node_views(nodes@) =~= nb.push(node_of(**b, pm, tags_spec(b.kind))));
                match anchor {
                    Some(a) => push_edge(edges, a, b.id, EdgeRelation::Contains),
                    None => match parent_id {
                        Some(pid) => push_edge(edges, pid, b.id, EdgeRelation::Contains),
                        None => {},
                    },
                }
                let ghost ec = edges@;
                assert(ec =~= eb + contains_edge(anchor, parent_id, b.id));
                match prev {
                    Some(p) => push_edge(edges, p, b.id, EdgeRelation::Follows),
                    None => {},
                }
                assert(edges@ =~= ec + follows_edge(w.2, b.id));
                prev = Some(b.id);
                proof {
                    assert(n1 + w.0.push(node_of(**b, pm, tags_spec(b.kind))) =~= (n1 + w.0).push(
                        node_of(**b, pm, tags_spec(b.kind)),
                    ));
                    assert(e1 + (w.1 + contains_edge(anchor, parent_id, b.id) + follows_edge(w.2, b.id))
                        =~= e1 + w.1 + contains_edge(anchor, parent_id, b.id) + follows_edge(w.2, b.id));
                }
            },
            SectionChild::Section(sub) => {
                assert(decreases_to!(section => section.children));
                let up: Option<BlockId> = match anchor {
                    Some(a) => Some(a),
                    None => parent_id,
                };
                walk(sub, up, nodes, edges, block_page);
                let ghost ws = walk_sec(sview(*sub), up, pm);
                let ghost ew = edges@;
                match sub.heading {
                    Some(h) => {
                        match prev {
                            Some(p) => push_edge(edges, p, h.id, EdgeRelation::Follows),
                            None => {},
                        }
                        assert(edges@ =~= ew + follows_edge(w.2, h.id));
                        prev = Some(h.id);
                    },
                    None => {},
                }
                proof {
                    assert(n1 + (w.0 + ws.0) =~= n1 + w.0 + ws.0);
                    assert(e1 + (w.1 + ws.1) =~= e1 + w.1 + ws.1);
                    assert(e1 + (w.1 + ws.1 + follows_edge(w.2, match sub.heading {
                        Some(h) => h.id,
                        None => 0,
                    })) =~= e1 + w.1 + ws.1 + follows_edge(w.2, match sub.heading {
                        Some(h) => h.id,
                        None => 0,
                    }));
                }
            },
        }
        i = i + 1;
    }
    proof {
        assert(section.children@.take(section.children@.len() as int) =~= section.children@);
        let c = walk_children(sv.children, anchor, parent_id, pm);
        match sv.heading {
            Some(h) => {
                assert(n1 == n0.push(node_of(h, pm, seq!["section"@])));
                assert(n0 + (seq![node_of(h, pm, seq!["section"@])] + c.0) =~= n1 + c.0);
                assert(e0 + (match parent_id {
                    Some(p) => seq![GraphEdge { from: p, to: h.id, relation: EdgeRelation::Contains }],
                    None => seq![],
                } + c.1) =~= e1 + c.1);
            },
            None => {},
        }
    }
}

fn find_first<'a>(blocks: &'a Vec<Block>, id: BlockId) -> (r: Option<&'a Block>)
    ensures
        match first_with_id(blocks@, id) {
            Some(j) => r == Some(&blocks@[j]),
            None => r is None,
        },
{
    let mut k: usize = 0;
    while k < blocks.len()
        invariant
            k <= blocks@.len(),
            first_with_id(blocks@.take(k as int), id) is None,
        decreases blocks@.len() - k,
    {
        proof {
            assert(blocks@.take(k + 1).drop_last() =~= blocks@.take(k as int));
        }
        if blocks[k].id == id {
            proof {
                lemma_first_with_id_prefix(blocks@, k + 1, k as int, id);
            }
            return Some(&blocks[k]);
        }
        k = k + 1;
    }
    assert(blocks@.take(blocks@.len() as int) =~= blocks@);
    None
}

proof fn lemma_first_with_id_prefix(blocks: Seq<Block>, k: int, j: int, id: BlockId)
    requires
        0 <= k <= blocks.len(),
        first_with_id(blocks.take(k), id) == Some(j),
    ensures
        first_with_id(blocks, id) == Some(j),
    decreases blocks.len() - k,
{
    if k < blocks.len() {
        assert(blocks.take(k + 1).drop_last() =~= blocks.take(k));
        lemma_first_with_id_prefix(blocks, k + 1, j, id);
    } else {
        assert(blocks.take(k) =~= blocks);
    }
}

/// Appends a `caption-of` edge for each figure/caption pair adjacent in
/// a page's reading order (always pointing from the figure to the
/// caption).
pub fn attach_caption_edges(doc: &Document, edges: &mut Vec<GraphEdge>)
    ensures
        final(edges)@ == old(edges)@ + caption_edges(doc.pages@),
{
    let ghost e0 = edges@;
    for p in 0..doc.pages.len()
        invariant
            edges@ == e0 + caption_edges(doc.pages@.take(p as int)),
    {
        let page = &doc.pages[p];
        let ghost before = edges@;
        proof {
            assert(doc.pages@.take(p + 1).drop_last() =~= doc.pages@.take(p as int));
            assert(page.reading_order@.take(0) =~= Seq::<BlockId>::empty());
            assert(before + Seq::<GraphEdge>::empty() =~= before);
        }
        let mut prev: Option<(BlockId, BlockType)> = None;
        for q in 0..page.reading_order.len()
            invariant
                page == &doc.pages@[p as int],
                ({
                    let c = caption_page(page.blocks@, page.reading_order@.take(q as int));
                    &&& edges@ == before + c.0
                    &&& prev == c.1
                }),
        {
            let id = page.reading_order[q];
            proof {
                assert(page.reading_order@.take(q + 1).drop_last() =~= page.reading_order@.take(
                    q as int,
                ));
            }
            let ghost c = caption_page(page.blocks@, page.reading_order@.take(q as int));
            match find_first(&page.blocks, id) {
                None => {},
                Some(block) => {
                    let ghost eb = edges@;
                    match prev {
                        Some((prev_id, prev_kind)) => {
                            if prev_kind == BlockType::Figure && block.kind == BlockType::Caption {
                                push_edge(edges, prev_id, block.id, EdgeRelation::CaptionOf);
                            } else if prev_kind == BlockType::Caption && block.kind == BlockType::Figure {
                                push_edge(edges, block.id, prev_id, EdgeRelation::CaptionOf);
                            }
                        },
                        None => {},
                    }
                    prev = Some((block.id, block.kind));
                    assert(edges@ =~= before + caption_page(
                        page.blocks@,
                        page.reading_order@.take(q + 1),
                    ).0);
                },
            }
        }
        assert(page.reading_order@.take(page.reading_order@.len() as int) =~= page.reading_order@);
        assert(e0 + caption_edges(doc.pages@.take(p + 1)) =~= before + caption_page(
            page.blocks@,
            page.reading_order@,
        ).0);
    }
    assert(doc.pages@.take(doc.pages@.len() as int) =~= doc.pages@);
}

/// Renders `doc` into the Graph-RAG shape.
pub fn render(doc: &Document) -> (r: GraphDocument)
    ensures
        r.meta@ == doc.meta@,
        node_views(r.nodes@) == graph_of(*doc).0,
        r.edges@ == graph_of(*doc).1,
{
    let tree = build_tree(doc);
    let mut nodes: Vec<GraphNode> = Vec::new();
    let mut edges: Vec<GraphEdge> = Vec::new();
    let block_page = index_block_page(doc);
    walk(&tree, None, &mut nodes, &mut edges, &block_page);
    attach_caption_edges(doc, &mut edges);
    assert(node_views(Seq::<GraphNode>::empty()) =~= Seq::<NodeV>::empty());
    assert(Seq::<NodeV>::empty() + walk_sec(tree_of(*doc), None, page_map(doc.pages@)).0
        =~= walk_sec(tree_of(*doc), None, page_map(doc.pages@)).0);
    assert(Seq::<GraphEdge>::empty() + walk_sec(tree_of(*doc), None, page_map(doc.pages@)).1
        =~= walk_sec(tree_of(*doc), None, page_map(doc.pages@)).1);
    GraphDocument { meta: doc.meta.duplicate(), nodes, edges }
}

/// The node a block gets in the graph: its own type's tags.
pub open spec fn std_node(b: Block, pm: Map<BlockId, u32>) -> NodeV {
    node_of(b, pm, tags_spec(b.kind))
}

/// Every section heading of the children is a heading block.
pub open spec fn heads_ok(cs: Seq<ChildV>) -> bool
    decreases cs,
{
    if cs.len() == 0 {
        true
    } else {
        heads_ok(cs.drop_last()) && match cs.last() {
            ChildV::Block(_) => true,
            ChildV::Section(s) => sec_ok(s),
        }
    }
}

pub open spec fn sec_ok(s: SectionV) -> bool
    decreases s,
{
    (match s.heading {
        Some(h) => h.kind is Heading,
        None => true,
    }) && heads_ok(s.children)
}

proof fn lemma_heads_ok_concat(a: Seq<ChildV>, b: Seq<ChildV>)
    requires
        heads_ok(a),
        heads_ok(b),
    ensures
        heads_ok(a + b),
    decreases b.len(),
{
    if b.len() == 0 {
        assert(a + b =~= a);
    } else {
        assert((a + b).drop_last() =~= a + b.drop_last());
        lemma_heads_ok_concat(a, b.drop_last());
    }
}

proof fn lemma_body_heads_ok(items: Seq<Block>, i: int, lvl: int)
    requires
        0 <= i <= items.len(),
    ensures
        heads_ok(body(items, i, lvl).0),
    decreases items.len() - i,
{
    lemma_body_end(items, i, lvl);
    if i < items.len() {
        match heading_level(items[i]) {
            Some(level) => {
                if level > lvl {
                    lemma_body_end(items, i + 1, level as int);
                    let sub = body(items, i + 1, level as int);
                    lemma_body_heads_ok(items, i + 1, level as int);
                    lemma_body_end(items, sub.1, lvl);
                    lemma_body_heads_ok(items, sub.1, lvl);
                    let c = ChildV::Section(SectionV { heading: Some(items[i]), level, children: sub.0 });
                    assert(seq![c].drop_last() =~= Seq::<ChildV>::empty());
                    assert(seq![c].last() == c);
                    assert(items[i].kind is Heading);
                    assert(sec_ok(SectionV { heading: Some(items[i]), level, children: sub.0 }));
                    assert(heads_ok(Seq::<ChildV>::empty()));
                    assert(heads_ok(seq![c]));
                    lemma_heads_ok_concat(seq![c], body(items, sub.1, lvl).0);
                }
            },
            None => {
                lemma_body_heads_ok(items, i + 1, lvl);
                let c = ChildV::Block(items[i]);
                assert(seq![c].drop_last() =~= Seq::<ChildV>::empty());
                assert(seq![c].last() == c);
                assert(heads_ok(Seq::<ChildV>::empty()));
                assert(heads_ok(seq![c]));
                lemma_heads_ok_concat(seq![c], body(items, i + 1, lvl).0);
            },
        }
    }
}

proof fn lemma_walk_children_nodes(
    cs: Seq<ChildV>,
    anchor: Option<BlockId>,
    parent: Option<BlockId>,
    pm: Map<BlockId, u32>,
)
    requires
        heads_ok(cs),
    ensures
        walk_children(cs, anchor, parent, pm).0 == flatten_of(cs).map_values(
            |b: Block| std_node(b, pm),
        ),
    decreases cs,
{
    if cs.len() > 0 {
        let d = cs.drop_last();
        lemma_walk_children_nodes(d, anchor, parent, pm);
        let prev = flatten_of(d).map_values(|b: Block| std_node(b, pm));
        match cs.last() {
            ChildV::Block(b) => {
                assert(flatten_child(ChildV::Block(b)) == seq![b]);
                assert(flatten_of(cs) == flatten_of(d) + seq![b]);
                assert(flatten_of(cs).map_values(|b: Block| std_node(b, pm)) =~= prev.push(
                    std_node(b, pm),
                ));
            },
            ChildV::Section(sub) => {
                lemma_walk_sec_nodes(sub, or_else(anchor, parent), pm);
                assert(flatten_of(cs).map_values(|b: Block| std_node(b, pm)) =~= prev
                    + flatten_child(ChildV::Section(sub)).map_values(|b: Block| std_node(b, pm)));
            },
        }
    }
}

proof fn lemma_walk_sec_nodes(s: SectionV, parent: Option<BlockId>, pm: Map<BlockId, u32>)
    requires
        sec_ok(s),
    ensures
        walk_sec(s, parent, pm).0 == flatten_child(ChildV::Section(s)).map_values(
            |b: Block| std_node(b, pm),
        ),
    decreases s,
{
    lemma_walk_children_nodes(s.children, anchor_of(s), parent, pm);
    let c = flatten_of(s.children).map_values(|b: Block| std_node(b, pm));
    match s.heading {
        Some(h) => {
            let t = tags_spec(h.kind);
            assert(t == seq!["section"@]);
            assert(add_tags(t, t.drop_last()) == t);
            assert(t.drop_last() =~= Seq::<Seq<char>>::empty());
            assert(t.contains(t.last())) by {
                assert(t[0] == t.last());
            }
            assert(add_tags(t, t) == t);
            assert(node_of(h, pm, seq!["section"@]) == std_node(h, pm));
            assert((seq![h] + flatten_of(s.children)).map_values(|b: Block| std_node(b, pm))
                =~= seq![std_node(h, pm)] + c);
        },
        None => {},
    }
}

/// The graph has one node per block of the document's reading order, in
/// that order, and each node carries its block's id, type, content, box,
/// provenance, page and the tags of its type.
pub proof fn lemma_graph_nodes_follow_reading_order(doc: Document)
    ensures
        graph_of(doc).0 == doc_items(doc.pages@).map_values(
            |b: Block| std_node(b, page_map(doc.pages@)),
        ),
{
    let items = doc_items(doc.pages@);
    let pm = page_map(doc.pages@);
    lemma_body_heads_ok(items, 0, -1);
    let t = tree_of(doc);
    assert(sec_ok(t));
    lemma_walk_sec_nodes(t, None, pm);
    lemma_tree_lists_reading_order(doc);
}

} // verus!
