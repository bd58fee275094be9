//! GitHub-flavoured Markdown rendering of a document, for vector-RAG
//! ingestion.  Rendering is a pure function of the document and options.

use vstd::prelude::*;
use crate::chars::chars_of;
use crate::model::{Block, BlockType, Document, Page};
use crate::sections::{build_tree, cview, cviews, derefs, sview, ChildV, Section, SectionChild, SectionV, tree_of};
use crate::strings::{dec, push_char, push_dec, push_str, push_uuid, uuid_text};
use crate::chars::is_ws;
use crate::text::{lemma_trim_end, lemma_trim_start, push_trimmed, push_trimmed_end, trim, trim_bounds, trim_end, words};

verus! {

broadcast use vstd::std_specs::vec::axiom_vec_decreases_to_view;

/// Where figures take their image from.
#[derive(Clone, Debug, PartialEq, Eq)]
pub enum ImageStrategy {
    /// Inline base64 data URLs.
    DataUrl,
    /// Images saved under `dir`, linked by relative path.
    MediaDir { dir: String },
    /// No image; only the figure caption.
    CaptionOnly,
}

/// Options of [`render`].
#[derive(Clone, Debug, PartialEq, Eq)]
pub struct MarkdownOptions {
    pub image_strategy: ImageStrategy,
    /// Equations with at most this many words render inline (`$…$`);
    /// 0 means always display math.
    pub inline_math_threshold: usize,
    /// Append a numbered "References" section.
    pub append_reference_list: bool,
}

impl MarkdownOptions {
    /// Caption-only figures, display math, reference list on.
    pub fn default() -> (r: MarkdownOptions)
        ensures
            r.image_strategy == ImageStrategy::CaptionOnly,
            r.inline_math_threshold == 0,
            r.append_reference_list,
    {
        MarkdownOptions {
            image_strategy: ImageStrategy::CaptionOnly,
            inline_math_threshold: 0,
            append_reference_list: true,
        }
    }
}

/// `n` copies of `'#'`.
pub open spec fn hashes(n: nat) -> Seq<char>
    decreases n,
{
    if n == 0 {
        seq![]
    } else {
        hashes((n - 1) as nat).push('#')
    }
}

/// A heading level clamped to `1..=6`.
pub open spec fn clamp_level(l: int) -> nat {
    if l < 1 {
        1
    } else if l > 6 {
        6
    } else {
        l as nat
    }
}

/// `# Title` line followed by a blank line.
pub open spec fn heading_md(level: int, content: Seq<char>) -> Seq<char> {
    hashes(clamp_level(level)) + seq![' '] + trim(content) + seq!['\n', '\n']
}

/// The pieces of `s` between `'\n'` characters.
pub open spec fn nl_pieces(s: Seq<char>) -> Seq<Seq<char>>
    decreases s.len(),
{
    if s.len() == 0 {
        seq![seq![]]
    } else {
        let p = nl_pieces(s.drop_last());
        if s.last() == '\n' {
            p.push(seq![])
        } else {
            p.update(p.len() - 1, p.last().push(s.last()))
        }
    }
}

/// One list item: blank lines vanish; lines not already bulleted with
/// `"- "` or `"* "` get a `"- "` bullet.
pub open spec fn list_item(line: Seq<char>) -> Seq<char> {
    let t = trim(line);
    if t.len() == 0 {
        seq![]
    } else if t.len() >= 2 && (t[0] == '-' || t[0] == '*') && t[1] == ' ' {
        t.push('\n')
    } else {
        seq!['-', ' '] + t.push('\n')
    }
}

pub open spec fn list_items(ps: Seq<Seq<char>>) -> Seq<char>
    decreases ps.len(),
{
    if ps.len() == 0 {
        seq![]
    } else {
        list_items(ps.drop_last()) + list_item(ps.last())
    }
}

/// The alt text of a figure: its trimmed content, or `"figure"`.
pub open spec fn figure_alt(content: Seq<char>) -> Seq<char> {
    if trim(content).len() == 0 {
        seq!['f', 'i', 'g', 'u', 'r', 'e']
    } else {
        trim(content)
    }
}

/// The Markdown of one block.
pub open spec fn block_md(b: Block, opts: MarkdownOptions) -> Seq<char> {
    match b.kind {
        BlockType::Heading { level } => heading_md(level as int, b.content@),
        BlockType::Paragraph | BlockType::Caption => trim(b.content@) + seq!['\n', '\n'],
        BlockType::List => list_items(nl_pieces(b.content@)).push('\n'),
        BlockType::Table => trim_end(b.content@) + seq!['\n', '\n'],
        BlockType::Equation => {
            let body = trim(b.content@);
            if opts.inline_math_threshold > 0 && words(body).len() <= opts.inline_math_threshold {
                seq!['$'] + body + seq!['$', '\n', '\n']
            } else {
                seq!['$', '$', '\n'] + body + seq!['\n', '$', '$', '\n', '\n']
            }
        },
        BlockType::CodeListing => seq!['`', '`', '`', '\n'] + trim_end(b.content@) + seq![
            '\n',
            '`',
            '`',
            '`',
            '\n',
            '\n',
        ],
        BlockType::Figure => {
            let alt = figure_alt(b.content@);
            match opts.image_strategy {
                ImageStrategy::CaptionOnly => seq!['_'] + "figure: "@ + alt + seq!['_', '\n', '\n'],
                ImageStrategy::DataUrl => seq!['!', '['] + alt + "](data:image/png;base64,...)\n\n"@,
                ImageStrategy::MediaDir { dir } => seq!['!', '['] + alt + seq![']', '('] + dir@
                    + seq!['/'] + uuid_text(b.id) + ".png)\n\n"@,
            }
        },
        BlockType::Footnote => seq!['>', ' '] + trim(b.content@) + seq!['\n', '\n'],
        BlockType::Reference => trim(b.content@) + seq!['\n', '\n'],
        BlockType::Header | BlockType::Footer | BlockType::PageNumber => seq![],
    }
}

/// The Markdown of a list of section children.
pub open spec fn children_md(cs: Seq<ChildV>, opts: MarkdownOptions) -> Seq<char>
    decreases cs, 0int,
{
    if cs.len() == 0 {
        seq![]
    } else {
        children_md(cs.drop_last(), opts) + child_md(cs.last(), opts)
    }
}

pub open spec fn child_md(c: ChildV, opts: MarkdownOptions) -> Seq<char>
    decreases c, 1int,
{
    match c {
        ChildV::Block(b) => block_md(b, opts),
        ChildV::Section(s) => match s.heading {
            Some(h) => heading_md(s.level as int, h.content@) + children_md(s.children, opts),
            None => children_md(s.children, opts),
        },
    }
}

/// The Markdown of a section: its heading line, then its children.
pub open spec fn section_md(s: SectionV, opts: MarkdownOptions) -> Seq<char> {
    child_md(ChildV::Section(s), opts)
}

/// All blocks of the pages, page after page, in storage order.
pub open spec fn all_blocks(pages: Seq<Page>) -> Seq<Block>
    decreases pages.len(),
{
    if pages.len() == 0 {
        seq![]
    } else {
        all_blocks(pages.drop_last()) + pages.last().blocks@
    }
}

/// The reference blocks of a block list.
pub open spec fn references(bs: Seq<Block>) -> Seq<Block>
    decreases bs.len(),
{
    if bs.len() == 0 {
        seq![]
    } else if bs.last().kind == BlockType::Reference {
        references(bs.drop_last()).push(bs.last())
    } else {
        references(bs.drop_last())
    }
}

/// `1. first\n2. second\n…`
pub open spec fn numbered(rs: Seq<Block>) -> Seq<char>
    decreases rs.len(),
{
    if rs.len() == 0 {
        seq![]
    } else {
        numbered(rs.drop_last()) + dec(rs.len()) + seq!['.', ' '] + trim(rs.last().content@)
            + seq!['\n']
    }
}

/// The trailing reference list; empty when there are no references.
pub open spec fn reference_list_md(doc: Document) -> Seq<char> {
    let rs = references(all_blocks(doc.pages@));
    if rs.len() == 0 {
        seq![]
    } else {
        "## References\n\n"@ + numbered(rs) + seq!['\n']
    }
}

/// Number of `'\n'` at the end of `s`.
pub open spec fn trailing_newlines(s: Seq<char>) -> nat
    decreases s.len(),
{
    if s.len() > 0 && s.last() == '\n' {
        trailing_newlines(s.drop_last()) + 1
    } else {
        0
    }
}

/// Every run of three or more `'\n'` shortened to two.
pub open spec fn cap_newlines(s: Seq<char>) -> Seq<char>
    decreases s.len(),
{
    if s.len() == 0 {
        seq![]
    } else {
        let r = cap_newlines(s.drop_last());
        if s.last() == '\n' && trailing_newlines(s) > 2 {
            r
        } else {
            r.push(s.last())
        }
    }
}

/// Drop the last character while the text ends in a blank line.
pub open spec fn strip_blank_tail(s: Seq<char>) -> Seq<char>
    decreases s.len(),
{
    if s.len() >= 2 && s.last() == '\n' && s[s.len() - 2] == '\n' {
        strip_blank_tail(s.drop_last())
    } else {
        s
    }
}

/// Blank-line normalization: at most one blank line in a row, and a
/// single trailing newline for non-empty output.
pub open spec fn normalize_blank_lines_spec(s: Seq<char>) -> Seq<char> {
    let u = strip_blank_tail(cap_newlines(s));
    if u.len() == 0 || u.last() == '\n' {
        u
    } else {
        u.push('\n')
    }
}

/// The Markdown rendering of a document.
pub open spec fn render_spec(doc: Document, opts: MarkdownOptions) -> Seq<char> {
    normalize_blank_lines_spec(
        section_md(tree_of(doc), opts) + if opts.append_reference_list {
            reference_list_md(doc)
        } else {
            seq![]
        },
    )
}

fn push_hashes(out: &mut String, n: u8)
    ensures
        final(out)@ == old(out)@ + hashes(n as nat),
{
    let ghost o = out@;
    let mut i: u8 = 0;
    while i < n
        invariant
            i <= n,
            out@ == o + hashes(i as nat),
        decreases n - i,
    {
        push_char(out, '#');
        i = i + 1;
    }
}

fn push_heading(out: &mut String, level: u8, content: &str)
    ensures
        final(out)@ == old(out)@ + heading_md(level as int, content@),
{
    let ghost o = out@;
    let lvl: u8 = if level < 1 { 1 } else if level > 6 { 6 } else { level };
    push_hashes(out, lvl);
    push_char(out, ' ');
    push_trimmed(out, content);
    push_char(out, '\n');
    push_char(out, '\n');
    assert(out@ =~= o + heading_md(level as int, content@));
}

fn push_list_item(out: &mut String, line: &Vec<char>)
    ensures
        final(out)@ == old(out)@ + list_item(line@),
{
    let ghost o = out@;
    let (a, b) = trim_bounds(line);
    if a == b {
        assert(out@ =~= o + list_item(line@));
        return;
    }
    let bulleted = b - a >= 2 && (line[a] == '-' || line[a] == '*') && line[a + 1] == ' ';
    if !bulleted {
        push_char(out, '-');
        push_char(out, ' ');
    }
    crate::strings::push_range(out, line, a, b);
    push_char(out, '\n');
    assert(out@ =~= o + list_item(line@));
}

fn push_list(out: &mut String, content: &str)
    ensures
        final(out)@ == old(out)@ + list_items(nl_pieces(content@)).push('\n'),
{
    let ghost o = out@;
    let v = chars_of(content);
    let mut line: Vec<char> = Vec::new();
    let mut i: usize = 0;
    while i < v.len()
        invariant
            i <= v@.len(),
            nl_pieces(v@.take(i as int)).len() > 0,
            line@ == nl_pieces(v@.take(i as int)).last(),
            out@ == o + list_items(nl_pieces(v@.take(i as int)).drop_last()),
        decreases v@.len() - i,
    {
        let c = v[i];
        let ghost p = nl_pieces(v@.take(i as int));
        proof {
            assert(v@.take(i + 1).drop_last() =~= v@.take(i as int));
            assert(v@.take(i + 1).last() == c);
        }
        if c == '\n' {
            push_list_item(out, &line);
            proof {
                let q = p.push(seq![]);
                assert(q.drop_last() =~= p);
                assert(p.drop_last().push(p.last()) =~= p);
            }
            line = Vec::new();
        } else {
            line.push(c);
            proof {
                let q = p.update(p.len() - 1, p.last().push(c));
                assert(q.drop_last() =~= p.drop_last());
            }
        }
        i = i + 1;
    }
    proof {
        assert(v@.take(v@.len() as int) =~= v@);
    }
    push_list_item(out, &line);
    push_char(out, '\n');
    proof {
        let p = nl_pieces(v@);
        assert(p.drop_last().push(p.last()) =~= p);
    }
}

/// Appends the Markdown of `block`.
pub fn write_block(out: &mut String, block: &Block, opts: &MarkdownOptions)
    ensures
        final(out)@ == old(out)@ + block_md(*block, *opts),
{
    let ghost o = out@;
    match block.kind {
        BlockType::Heading { level } => {
            push_heading(out, level, block.content.as_str());
        },
        BlockType::Paragraph | BlockType::Caption => {
            push_trimmed(out, block.content.as_str());
            push_char(out, '\n');
            push_char(out, '\n');
            assert(out@ =~= o + block_md(*block, *opts));
        },
        BlockType::List => {
            push_list(out, block.content.as_str());
        },
        BlockType::Table => {
            push_trimmed_end(out, block.content.as_str());
            push_char(out, '\n');
            push_char(out, '\n');
            assert(out@ =~= o + block_md(*block, *opts));
        },
        BlockType::Equation => {
            let v = chars_of(block.content.as_str());
            let (a, b) = trim_bounds(&v);
            let mut body: Vec<char> = Vec::new();
            let mut k = a;
            while k < b
                invariant
                    a <= k <= b <= v@.len(),
                    body@ == v@.subrange(a as int, k as int),
                decreases b - k,
            {
                body.push(v[k]);
                assert(v@.subrange(a as int, k + 1) == v@.subrange(a as int, k as int).push(v@[k as int]));
                k = k + 1;
            }
            let (tokens, _) = crate::text::word_stats(&body);
            if opts.inline_math_threshold > 0 && tokens <= opts.inline_math_threshold {
                push_char(out, '$');
                crate::strings::push_chars(out, &body);
                push_char(out, '$');
                push_char(out, '\n');
                push_char(out, '\n');
            } else {
                push_char(out, '$');
                push_char(out, '$');
                push_char(out, '\n');
                crate::strings::push_chars(out, &body);
                push_char(out, '\n');
                push_char(out, '$');
                push_char(out, '$');
                push_char(out, '\n');
                push_char(out, '\n');
            }
            assert(out@ =~= o + block_md(*block, *opts));
        },
        BlockType::CodeListing => {
            push_char(out, '`');
            push_char(out, '`');
            push_char(out, '`');
            push_char(out, '\n');
            push_trimmed_end(out, block.content.as_str());
            push_char(out, '\n');
            push_char(out, '`');
            push_char(out, '`');
            push_char(out, '`');
            push_char(out, '\n');
            push_char(out, '\n');
            assert(out@ =~= o + block_md(*block, *opts));
        },
        BlockType::Figure => {
            let v = chars_of(block.content.as_str());
            let (a, b) = trim_bounds(&v);
            let mut alt: Vec<char> = Vec::new();
            if a == b {
                alt.push('f');
                alt.push('i');
                alt.push('g');
                alt.push('u');
                alt.push('r');
                alt.push('e');
            } else {
                let mut k = a;
                while k < b
                    invariant
                        a <= k <= b <= v@.len(),
                        alt@ == v@.subrange(a as int, k as int),
                    decreases b - k,
                {
                    alt.push(v[k]);
                    assert(v@.subrange(a as int, k + 1) == v@.subrange(a as int, k as int).push(v@[k as int]));
                    k = k + 1;
                }
            }
            assert(alt@ =~= figure_alt(block.content@));
            match &opts.image_strategy {
                ImageStrategy::CaptionOnly => {
                    push_char(out, '_');
                    push_str(out, "figure: ");
                    crate::strings::push_chars(out, &alt);
                    push_char(out, '_');
                    push_char(out, '\n');
                    push_char(out, '\n');
                },
                ImageStrategy::DataUrl => {
                    push_char(out, '!');
                    push_char(out, '[');
                    crate::strings::push_chars(out, &alt);
                    push_str(out, "](data:image/png;base64,...)\n\n");
                },
                ImageStrategy::MediaDir { dir } => {
                    push_char(out, '!');
                    push_char(out, '[');
                    crate::strings::push_chars(out, &alt);
                    push_char(out, ']');
                    push_char(out, '(');
                    push_str(out, dir.as_str());
                    push_char(out, '/');
                    push_uuid(out, block.id);
                    push_str(out, ".png)\n\n");
                },
            }
            assert(out@ =~= o + block_md(*block, *opts));
        },
        BlockType::Footnote => {
            push_char(out, '>');
            push_char(out, ' ');
            push_trimmed(out, block.content.as_str());
            push_char(out, '\n');
            push_char(out, '\n');
            assert(out@ =~= o + block_md(*block, *opts));
        },
        BlockType::Reference => {
            push_trimmed(out, block.content.as_str());
            push_char(out, '\n');
            push_char(out, '\n');
            assert(out@ =~= o + block_md(*block, *opts));
        },
        BlockType::Header | BlockType::Footer | BlockType::PageNumber => {
            assert(out@ =~= o + block_md(*block, *opts));
        },
    }
}

/// Appends the Markdown of a section: heading line, then children.
pub fn write_section(out: &mut String, section: &Section, opts: &MarkdownOptions)
    ensures
        final(out)@ == old(out)@ + section_md(sview(*section), *opts),
    decreases section,
{
    let ghost o = out@;
    match section.heading {
        Some(h) => {
            push_heading(out, section.level, h.content.as_str());
        },
        None => {},
    }
    let ghost mid = out@;
    let mut i: usize = 0;
    while i < section.children.len()
        invariant
            i <= section.children@.len(),
            out@ == mid + children_md(cviews(section.children@.take(i as int)), *opts),
        decreases section.children@.len() - i,
    {
        proof {
            let cs = section.children@;
            assert(cs.take(i + 1).drop_last() =~= cs.take(i as int));
            let cv = cviews(cs.take(i as int));
            assert(cviews(cs.take(i + 1)) == cv.push(cview(cs[i as int])));
            assert(cv.push(cview(cs[i as int])).drop_last() =~= cv);
        }
        let ghost before = out@;
        match &section.children[i] {
            SectionChild::Block(b) => {
                write_block(out, b, opts);
            },
            SectionChild::Section(sub) => {
                assert(decreases_to!(section => section.children));
                write_section(out, sub, opts);
            },
        }
        assert(before + child_md(cview(section.children@[i as int]), *opts) =~= mid + children_md(cviews(section.children@.take(i + 1)), *opts));
        i = i + 1;
    }
    assert(section.children@.take(section.children@.len() as int) =~= section.children@);
    assert(out@ =~= o + section_md(sview(*section), *opts));
}

fn collect_references<'a>(doc: &'a Document) -> (r: Vec<&'a Block>)
    ensures
        derefs(r@) == references(all_blocks(doc.pages@)),
{
    let mut refs: Vec<&'a Block> = Vec::new();
    for p in 0..doc.pages.len()
        invariant
            derefs(refs@) == references(all_blocks(doc.pages@.take(p as int))),
    {
        let page = &doc.pages[p];
        let ghost done = all_blocks(doc.pages@.take(p as int));
        proof {
            assert(doc.pages@.take(p + 1).drop_last() =~= doc.pages@.take(p as int));
            assert(done + page.blocks@.take(0) =~= done);
        }
        for q in 0..page.blocks.len()
            invariant
                page == &doc.pages@[p as int],
                done == all_blocks(doc.pages@.take(p as int)),
                derefs(refs@) == references(done + page.blocks@.take(q as int)),
        {
            let b = &page.blocks[q];
            let ghost before = derefs(refs@);
            proof {
                let t = done + page.blocks@.take(q + 1);
                assert(t.drop_last() =~= done + page.blocks@.take(q as int));
                assert(t.last() == *b);
            }
            if b.kind == BlockType::Reference {
                refs.push(b);
                assert(derefs(refs@) =~= before.push(*b));
            }
        }
        assert(done + page.blocks@.take(page.blocks@.len() as int) =~= all_blocks(
            doc.pages@.take(p + 1),
        ));
    }
    assert(doc.pages@.take(doc.pages@.len() as int) =~= doc.pages@);
    refs
}

/// Appends the numbered reference list of `doc` (nothing when it has no
/// reference blocks).
pub fn write_reference_list(out: &mut String, doc: &Document)
    ensures
        final(out)@ == old(out)@ + reference_list_md(*doc),
{
    let ghost o = out@;
    let refs = collect_references(doc);
    let ghost rs = references(all_blocks(doc.pages@));
    if refs.len() == 0 {
        assert(rs.len() == 0);
        assert(out@ =~= o + reference_list_md(*doc));
        return;
    }
    push_str(out, "## References\n\n");
    let ghost head = out@;
    let mut i: usize = 0;
    assert(derefs(refs@).take(0) =~= Seq::<Block>::empty());
    while i < refs.len()
        invariant
            i <= refs@.len(),
            derefs(refs@) == rs,
            out@ == head + numbered(rs.take(i as int)),
        decreases refs@.len() - i,
    {
        let r = refs[i];
        proof {
            assert(rs.take(i + 1).drop_last() =~= rs.take(i as int));
            assert(rs.take(i + 1).last() == *r);
        }
        let n: u64 = (i + 1) as u64;
        push_dec(out, n);
        push_char(out, '.');
        push_char(out, ' ');
        push_trimmed(out, r.content.as_str());
        push_char(out, '\n');
        assert(out@ =~= head + numbered(rs.take(i + 1)));
        i = i + 1;
    }
    push_char(out, '\n');
    assert(rs.take(rs.len() as int) =~= rs);
    proof {
        reveal_strlit("## References\n\n");
    }
    assert(out@ =~= o + reference_list_md(*doc));
}

/// Runs of three or more newlines shortened to two; no blank line at the
/// end; non-empty output ends in exactly one newline.
pub fn normalize_blank_lines(text: &str) -> (r: String)
    ensures
        r@ == normalize_blank_lines_spec(text@),
{
    let v = chars_of(text);
    let mut u: Vec<char> = Vec::new();
    let mut blank_run: usize = 0;
    let mut i: usize = 0;
    while i < v.len()
        invariant
            i <= v@.len(),
            blank_run == trailing_newlines(v@.take(i as int)),
            blank_run <= i,
            u@ == cap_newlines(v@.take(i as int)),
        decreases v@.len() - i,
    {
        let ch = v[i];
        proof {
            assert(v@.take(i + 1).drop_last() =~= v@.take(i as int));
            assert(v@.take(i + 1).last() == ch);
        }
        if ch == '\n' {
            blank_run = blank_run + 1;
            if blank_run <= 2 {
                u.push(ch);
            }
        } else {
            blank_run = 0;
            u.push(ch);
        }
        i = i + 1;
    }
    assert(v@.take(v@.len() as int) =~= v@);
    let ghost capped = u@;
    while u.len() >= 2 && u[u.len() - 1] == '\n' && u[u.len() - 2] == '\n'
        invariant
            strip_blank_tail(u@) == strip_blank_tail(capped),
        decreases u@.len(),
    {
        u.pop();
    }
    if u.len() > 0 && u[u.len() - 1] != '\n' {
        u.push('\n');
    }
    crate::strings::string_from(&u)
}

/// Renders `doc` to GitHub-flavoured Markdown.
pub fn render(doc: &Document, opts: &MarkdownOptions) -> (r: String)
    ensures
        r@ == render_spec(*doc, *opts),
{
    let tree = build_tree(doc);
    let mut out = String::new();
    write_section(&mut out, &tree, opts);
    let ghost body = out@;
    if opts.append_reference_list {
        write_reference_list(&mut out, doc);
    } else {
        assert(out@ =~= body + Seq::<char>::empty());
    }
    normalize_blank_lines(out.as_str())
}

/// No three newlines in a row, that is, no two blank lines in a row.
pub open spec fn no_double_blank(s: Seq<char>) -> bool {
    forall|i: int|
        0 <= i && i + 2 < s.len() ==> !(#[trigger] s[i] == '\n' && s[i + 1] == '\n' && s[i + 2]
            == '\n')
}

proof fn lemma_two_trailing(x: Seq<char>)
    requires
        x.len() >= 2,
        x.last() == '\n',
        x[x.len() - 2] == '\n',
    ensures
        trailing_newlines(x) >= 2,
{
    let d = x.drop_last();
    assert(d.last() == x[x.len() - 2]);
    assert(trailing_newlines(d) >= 1);
}

proof fn lemma_cap_newlines(s: Seq<char>)
    ensures
        no_double_blank(cap_newlines(s)),
        trailing_newlines(cap_newlines(s)) == if trailing_newlines(s) > 2 {
            2
        } else {
            trailing_newlines(s)
        },
    decreases s.len(),
{
    if s.len() > 0 {
        let d = s.drop_last();
        lemma_cap_newlines(d);
        let r = cap_newlines(d);
        let c = s.last();
        if c == '\n' && trailing_newlines(s) > 2 {
        } else {
            let t = r.push(c);
            assert(t.drop_last() =~= r);
            if c == '\n' {
                assert(trailing_newlines(r) <= 1);
                if r.len() >= 2 && r.last() == '\n' && r[r.len() - 2] == '\n' {
                    lemma_two_trailing(r);
                }
            }
            assert forall|i: int| 0 <= i && i + 2 < t.len() implies !(#[trigger] t[i] == '\n'
                && t[i + 1] == '\n' && t[i + 2] == '\n') by {
                if i + 2 < r.len() {
                    assert(t[i] == r[i] && t[i + 1] == r[i + 1] && t[i + 2] == r[i + 2]);
                }
            }
        }
    }
}

proof fn lemma_strip_blank_tail(u: Seq<char>)
    ensures
        strip_blank_tail(u).len() <= u.len(),
        strip_blank_tail(u) =~= u.take(strip_blank_tail(u).len() as int),
        !(strip_blank_tail(u).len() >= 2 && strip_blank_tail(u).last() == '\n' && strip_blank_tail(
            u,
        )[strip_blank_tail(u).len() - 2] == '\n'),
    decreases u.len(),
{
    if u.len() >= 2 && u.last() == '\n' && u[u.len() - 2] == '\n' {
        lemma_strip_blank_tail(u.drop_last());
    }
}

/// Blank-line normalization leaves no two blank lines in a row, and its
/// non-empty output ends in exactly one newline.
pub proof fn lemma_normalized_blank_lines(s: Seq<char>)
    ensures
        no_double_blank(normalize_blank_lines_spec(s)),
        normalize_blank_lines_spec(s).len() == 0 || (normalize_blank_lines_spec(s).last() == '\n'
            && (normalize_blank_lines_spec(s).len() == 1 || normalize_blank_lines_spec(s)[
            normalize_blank_lines_spec(s).len() - 2] != '\n')),
{
    let c = cap_newlines(s);
    lemma_cap_newlines(s);
    let u = strip_blank_tail(c);
    lemma_strip_blank_tail(c);
    assert forall|i: int| 0 <= i && i + 2 < u.len() implies !(#[trigger] u[i] == '\n' && u[i + 1]
        == '\n' && u[i + 2] == '\n') by {
        assert(u[i] == c[i] && u[i + 1] == c[i + 1] && u[i + 2] == c[i + 2]);
    }
    if u.len() > 0 && u.last() != '\n' {
        let t = u.push('\n');
        assert forall|i: int| 0 <= i && i + 2 < t.len() implies !(#[trigger] t[i] == '\n' && t[i
            + 1] == '\n' && t[i + 2] == '\n') by {
            if i + 2 < u.len() {
                assert(t[i] == u[i] && t[i + 1] == u[i + 1] && t[i + 2] == u[i + 2]);
            } else {
                assert(t[i + 1] == u.last());
            }
        }
    }
}

/// Rendered Markdown never holds two blank lines in a row, and ends in a
/// single newline unless it is empty.
pub proof fn lemma_render_blank_lines(doc: Document, opts: MarkdownOptions)
    ensures
        no_double_blank(render_spec(doc, opts)),
        render_spec(doc, opts).len() == 0 || (render_spec(doc, opts).last() == '\n' && (render_spec(
            doc,
            opts,
        ).len() == 1 || render_spec(doc, opts)[render_spec(doc, opts).len() - 2] != '\n')),
{
    let raw = section_md(tree_of(doc), opts) + if opts.append_reference_list {
        reference_list_md(doc)
    } else {
        seq![]
    };
    lemma_normalized_blank_lines(raw);
}

/// `t` occurs in `s` as a contiguous run of characters.
pub open spec fn occurs_in(t: Seq<char>, s: Seq<char>) -> bool {
    exists|k: int| 0 <= k && k + t.len() <= s.len() && #[trigger] s.subrange(k, k + t.len()) == t
}

proof fn lemma_occurs_at(t: Seq<char>, s: Seq<char>, k: int)
    requires
        0 <= k,
        k + t.len() <= s.len(),
        s.subrange(k, k + t.len()) =~= t,
    ensures
        occurs_in(t, s),
{
}

proof fn lemma_first_non_ws(s: Seq<char>) -> (a: int)
    ensures
        0 <= a <= s.len(),
        forall|i: int| 0 <= i < a ==> is_ws(#[trigger] s[i]),
        a == s.len() || !is_ws(s[a]),
    decreases s.len(),
{
    if s.len() > 0 && is_ws(s[0]) {
        let t = s.drop_first();
        let a1 = lemma_first_non_ws(t);
        assert forall|i: int| 0 <= i < a1 + 1 implies is_ws(#[trigger] s[i]) by {
            if i > 0 {
                assert(s[i] == t[i - 1]);
            }
        }
        if a1 < t.len() {
            assert(s[a1 + 1] == t[a1]);
        }
        a1 + 1
    } else {
        0
    }
}

proof fn lemma_last_non_ws(s: Seq<char>) -> (b: int)
    ensures
        0 <= b <= s.len(),
        forall|i: int| b <= i < s.len() ==> is_ws(#[trigger] s[i]),
        b == 0 || !is_ws(s[b - 1]),
    decreases s.len(),
{
    if s.len() > 0 && is_ws(s.last()) {
        let t = s.drop_last();
        let b1 = lemma_last_non_ws(t);
        assert forall|i: int| b1 <= i < s.len() implies is_ws(#[trigger] s[i]) by {
            if i < t.len() {
                assert(s[i] == t[i]);
            }
        }
        if b1 > 0 {
            assert(s[b1 - 1] == t[b1 - 1]);
        }
        b1
    } else {
        s.len() as int
    }
}

/// The trimmed text lies within the text with only its trailing
/// whitespace removed.
proof fn lemma_trim_within_trim_end(s: Seq<char>)
    ensures
        occurs_in(trim(s), trim_end(s)),
        forall|pre: Seq<char>, post: Seq<char>| #[trigger] occurs_in(trim(s), pre + trim_end(s) + post),
{
    let a = lemma_first_non_ws(s);
    let b = lemma_last_non_ws(s);
    lemma_trim_start(s, a);
    lemma_trim_end(s, b);
    let t = s.subrange(a, s.len() as int);
    if a == s.len() {
        assert(t.len() == 0);
        assert(trim_end(t) =~= Seq::<char>::empty());
        assert(trim(s).len() == 0);
        lemma_occurs_at(trim(s), trim_end(s), 0);
        assert forall|pre: Seq<char>, post: Seq<char>| #[trigger] occurs_in(trim(s), pre + trim_end(s) + post) by {
            lemma_occurs_at(trim(s), pre + trim_end(s) + post, 0);
        }
    } else {
        assert(a < b) by {
            if b <= a {
                assert(is_ws(s[a]));
            }
        }
        assert forall|i: int| b - a <= i < t.len() implies is_ws(#[trigger] t[i]) by {
            assert(t[i] == s[a + i]);
        }
        assert(t[b - a - 1] == s[b - 1]);
        lemma_trim_end(t, b - a);
        assert(trim(s) =~= s.subrange(a, b));
        assert(trim_end(s).subrange(a, b) =~= s.subrange(a, b));
        lemma_occurs_at(trim(s), trim_end(s), a);
        assert forall|pre: Seq<char>, post: Seq<char>| #[trigger] occurs_in(trim(s), pre + trim_end(s) + post) by {
            let w = pre + trim_end(s) + post;
            assert(w.subrange(pre.len() + a, pre.len() + b) =~= s.subrange(a, b));
            lemma_occurs_at(trim(s), w, pre.len() + a);
        }
    }
}

/// A block of text keeps its trimmed text in its Markdown: headings,
/// paragraphs, captions, footnotes, references, equations, tables and code
/// listings always, and figures whose text is not blank (it is their alt
/// text).  Page headers,
/// footers and page numbers render to nothing.
pub proof fn lemma_block_md_keeps_text(b: Block, opts: MarkdownOptions)
    ensures
        (b.kind is Heading || b.kind == BlockType::Paragraph || b.kind == BlockType::Caption || b.kind
            == BlockType::Footnote || b.kind == BlockType::Reference || b.kind == BlockType::Equation)
            ==> occurs_in(trim(b.content@), block_md(b, opts)),
        b.kind == BlockType::Table || b.kind == BlockType::CodeListing ==> occurs_in(
            trim(b.content@),
            block_md(b, opts),
        ),
        b.kind == BlockType::Figure && trim(b.content@).len() > 0 ==> occurs_in(
            trim(b.content@),
            block_md(b, opts),
        ),
        (b.kind == BlockType::Header || b.kind == BlockType::Footer || b.kind == BlockType::PageNumber)
            ==> block_md(b, opts).len() == 0,
{
    let t = trim(b.content@);
    let md = block_md(b, opts);
    match b.kind {
        BlockType::Heading { level } => {
            let h = hashes(clamp_level(level as int));
            lemma_occurs_at(t, md, h.len() as int + 1);
        },
        BlockType::Paragraph | BlockType::Caption | BlockType::Reference => {
            lemma_occurs_at(t, md, 0);
        },
        BlockType::Footnote => {
            lemma_occurs_at(t, md, 2);
        },
        BlockType::Equation => {
            if opts.inline_math_threshold > 0 && words(t).len() <= opts.inline_math_threshold {
                lemma_occurs_at(t, md, 1);
            } else {
                lemma_occurs_at(t, md, 3);
            }
        },
        BlockType::Figure => {
            if t.len() > 0 {
                assert(figure_alt(b.content@) == t);
                match opts.image_strategy {
                    ImageStrategy::CaptionOnly => {
                        reveal_strlit("figure: ");
                        lemma_occurs_at(t, md, 9);
                    },
                    ImageStrategy::DataUrl => {
                        lemma_occurs_at(t, md, 2);
                    },
                    ImageStrategy::MediaDir { dir } => {
                        lemma_occurs_at(t, md, 2);
                    },
                }
            }
        },
        BlockType::Table => {
            lemma_trim_within_trim_end(b.content@);
            assert(md =~= Seq::<char>::empty() + trim_end(b.content@) + seq!['\n', '\n']);
        },
        BlockType::CodeListing => {
            lemma_trim_within_trim_end(b.content@);
            assert(md =~= seq!['`', '`', '`', '\n'] + trim_end(b.content@) + seq!['\n', '`', '`', '`', '\n', '\n']);
        },
        _ => {},
    }
}

/// A caption renders exactly as a paragraph with the same content.
pub proof fn lemma_caption_renders_as_paragraph(b: Block, opts: MarkdownOptions)
    requires
        b.kind == BlockType::Caption,
    ensures
        block_md(b, opts) == block_md(Block { kind: BlockType::Paragraph, ..b }, opts),
{
}

} // verus!
