//! Pipeline pieces around the AI bridge: the options and errors of the
//! parse pipeline, the mapping of AI responses to fusion payloads
//! (including the GitHub-flavoured Markdown of extracted tables), the
//! extraction of straight segments from vector paths, and small
//! classification helpers.

use vstd::prelude::*;
use std::collections::HashMap;
use std::path::PathBuf;
use crate::fuser::{fuse_doc, merge, IaPayload};
use crate::graph::{graph_of, node_views, render as render_graph, GraphDocument};
use crate::markdown::{nl_pieces, render as render_markdown, render_spec, MarkdownOptions};
use crate::geometry::{BBox, Point};
use crate::model::{BlockId, BlockType, Document, Provenance, ProvenanceSource, valid_confidence};
use crate::strings::{dec, push_char, push_str, str_views, uuid_text};
use crate::text::{collapse, is_blank, join, letter_spaced, normalize_text, push_joined_str, segments, seq_views, trim};
use crate::layout::{ParagraphGroup, ParagraphKind};

verus! {

broadcast use vstd::std_specs::hash::group_hash_axioms;

#[verifier::external_type_specification]
#[verifier::external_body]
pub struct ExIoError(std::io::Error);

/// Failures of the parse pipeline.
#[derive(Debug)]
pub enum PipelineError {
    PdfOpen(String),
    PageExtraction { page: usize, reason: String },
    IaUnavailable(String),
    IaRpc(String),
    Serialization(String),
    Io(std::io::Error),
}

/// Triage profile names.
#[derive(Copy, Clone, Debug, PartialEq, Eq, Structural)]
pub enum ProfileName {
    Fast,
    Balanced,
    Scientific,
}

/// `"fast"` and `"scientific"` select those profiles; anything else is
/// balanced.
pub fn resolve_profile(name: &str) -> (r: ProfileName)
    ensures
        r == if name@ == "fast"@ {
            ProfileName::Fast
        } else if name@ == "scientific"@ {
            ProfileName::Scientific
        } else {
            ProfileName::Balanced
        },
{
    let n = crate::strings::string_from(&crate::chars::chars_of(name));
    let mut fast = String::new();
    push_str(&mut fast, "fast");
    let mut sci = String::new();
    push_str(&mut sci, "scientific");
    if n == fast {
        ProfileName::Fast
    } else if n == sci {
        ProfileName::Scientific
    } else {
        ProfileName::Balanced
    }
}

/// Superscripts ¹ ² ³, Greek letters, the mathematical operator blocks,
/// and `+ - = < >`.
pub open spec fn math_symbol(c: char) -> bool {
    ('\u{00B2}' <= c <= '\u{00B3}') || c == '\u{00B9}' || ('\u{0391}' <= c <= '\u{03C9}') || (
    '\u{2200}' <= c <= '\u{22FF}') || ('\u{2A00}' <= c <= '\u{2AFF}') || c == '+' || c == '-' || c
        == '=' || c == '<' || c == '>'
}

pub fn is_math_symbol(c: char) -> (r: bool)
    ensures
        r == math_symbol(c),
{
    ('\u{00B2}' <= c && c <= '\u{00B3}') || c == '\u{00B9}' || ('\u{0391}' <= c && c <= '\u{03C9}')
        || ('\u{2200}' <= c && c <= '\u{22FF}') || ('\u{2A00}' <= c && c <= '\u{2AFF}') || c == '+'
        || c == '-' || c == '=' || c == '<' || c == '>'
}

/// Options of the parse pipeline.
#[derive(Clone, Debug)]
pub struct ParsePipelineOptions {
    /// Input PDF.
    pub input: PathBuf,
    /// Triage profile: "fast", "balanced" or "scientific".
    pub profile: String,
    /// Use the AI bridge (OCR / vision-language models).
    pub use_ia: bool,
    /// OCR every page, even with native text.
    pub force_ocr: bool,
    /// Ollama endpoint used by the embedded worker.
    pub ollama_endpoint: String,
    /// External gRPC endpoint; `None` with `use_ia` spawns a worker.
    pub ia_grpc_endpoint: Option<String>,
    /// Pages processed at once.
    pub max_concurrent_pages: Option<usize>,
    /// Where crops and images are saved.
    pub media_dir: Option<PathBuf>,
    pub save_images: bool,
    /// PDF backend: "pdfium", "pure" or "auto".
    pub pdf_backend: String,
}

/// The path that `PathBuf::from` makes of a string.
pub uninterp spec fn path_of(s: Seq<char>) -> PathBuf;

/// `PathBuf::from(&str)`: the path of `s`, named [`path_of`].
#[verifier::external_body]
fn path_from(s: &str) -> (r: PathBuf)
    ensures
        r == path_of(s@),
{
    PathBuf::from(s)
}

impl ParsePipelineOptions {
    /// Balanced profile, no AI, local Ollama, automatic backend; the input
    /// is the empty path.
    pub fn default() -> (r: ParsePipelineOptions)
        ensures
            r.input == path_of(""@),
            r.profile@ == "balanced"@,
            !r.use_ia,
            !r.force_ocr,
            r.ollama_endpoint@ == "http://localhost:11434"@,
            r.ia_grpc_endpoint is None,
            r.max_concurrent_pages is None,
            r.media_dir is None,
            !r.save_images,
            r.pdf_backend@ == "auto"@,
    {
        let mut profile = String::new();
        push_str(&mut profile, "balanced");
        let mut ollama_endpoint = String::new();
        push_str(&mut ollama_endpoint, "http://localhost:11434");
        let mut pdf_backend = String::new();
        push_str(&mut pdf_backend, "auto");
        ParsePipelineOptions {
            input: path_from(""),
            profile,
            use_ia: false,
            force_ocr: false,
            ollama_endpoint,
            ia_grpc_endpoint: None,
            max_concurrent_pages: None,
            media_dir: None,
            save_images: false,
            pdf_backend,
        }
    }
}

// ---------------------------------------------------------------------------
// AI responses
// ---------------------------------------------------------------------------

/// Provenance fields of an AI response.
#[derive(Clone, Debug, PartialEq, Eq)]
pub struct ResponseProvenance {
    pub model_id: String,
    pub backend: String,
    pub latency_ms: u32,
    pub retries: u32,
}

#[derive(Clone, Debug, PartialEq, Eq)]
pub struct OcrResult {
    pub text: String,
}

#[derive(Clone, Debug, PartialEq, Eq)]
pub struct OcrResponse {
    pub result: Option<OcrResult>,
    pub provenance: Option<ResponseProvenance>,
}

#[derive(Clone, Debug, PartialEq, Eq)]
pub struct TableCell {
    pub text: String,
}

#[derive(Clone, Debug, PartialEq, Eq)]
pub struct TableRow {
    pub cells: Vec<TableCell>,
}

#[derive(Clone, Debug, PartialEq, Eq)]
pub struct TableResult {
    pub rows: Vec<TableRow>,
}

#[derive(Clone, Debug, PartialEq, Eq)]
pub struct TableResponse {
    pub result: Option<TableResult>,
    pub provenance: Option<ResponseProvenance>,
}

#[derive(Clone, Debug, PartialEq, Eq)]
pub struct ImageResult {
    pub caption: String,
    pub description: String,
    pub alt_text: String,
}

#[derive(Clone, Debug, PartialEq, Eq)]
pub struct ImageResponse {
    pub result: Option<ImageResult>,
    pub provenance: Option<ResponseProvenance>,
}

#[derive(Clone, Debug, PartialEq, Eq)]
pub struct FormulaResult {
    pub latex: String,
    pub mathml: String,
}

#[derive(Clone, Debug, PartialEq, Eq)]
pub struct FormulaResponse {
    pub result: Option<FormulaResult>,
    pub provenance: Option<ResponseProvenance>,
}

/// Confidence given to AI results: 0.9 as a binary32 bit pattern.
pub const IA_CONFIDENCE: u32 = 0x3F66_6666;

/// The provenance recorded for an AI result: OCR engines ("ocr",
/// "surya", "tesseract") are `Ocr`, anything else `Vlm`; confidence 0.9;
/// retries saturated at 255.
pub open spec fn provenance_of(p: ResponseProvenance) -> Provenance {
    Provenance {
        source: if p.backend@ == "ocr"@ || p.backend@ == "surya"@ || p.backend@ == "tesseract"@ {
            ProvenanceSource::Ocr
        } else {
            ProvenanceSource::Vlm
        },
        model: Some(p.model_id),
        confidence: IA_CONFIDENCE,
        latency_ms: p.latency_ms,
        retries: if p.retries > 255 { 255 } else { p.retries as u8 },
    }
}

fn literal(s: &str) -> (r: String)
    ensures
        r@ == s@,
{
    let mut r = String::new();
    push_str(&mut r, s);
    r
}

proof fn lemma_ia_confidence_valid()
    ensures
        valid_confidence(IA_CONFIDENCE),
{
    assert(0x3F66_6666u32 & 0x7F80_0000u32 == 0x3F00_0000u32) by (bit_vector);
    assert(0x3F66_6666u32 & 0x8000_0000u32 == 0u32) by (bit_vector);
    assert(0x3F66_6666u32 & 0x7FFF_FFFFu32 == 0x3F66_6666u32) by (bit_vector);
    assert(0x3F80_0000u32 & 0x7F80_0000u32 == 0x3F80_0000u32) by (bit_vector);
    assert(0x3F80_0000u32 & 0x8000_0000u32 == 0u32) by (bit_vector);
    assert(0x3F80_0000u32 & 0x7FFF_FFFFu32 == 0x3F80_0000u32) by (bit_vector);
    assert(0u32 & 0x7F80_0000u32 == 0u32) by (bit_vector);
    assert(0u32 & 0x8000_0000u32 == 0u32) by (bit_vector);
    assert(0u32 & 0x7FFF_FFFFu32 == 0u32) by (bit_vector);
}

/// Builds the provenance of an AI result.
pub fn build_provenance(p: &ResponseProvenance) -> (r: Provenance)
    ensures
        r@ == provenance_of(*p)@,
{
    let source = if p.backend == literal("ocr") || p.backend == literal("surya") || p.backend
        == literal("tesseract") {
        ProvenanceSource::Ocr
    } else {
        ProvenanceSource::Vlm
    };
    let retries: u8 = if p.retries > 255 { 255 } else { p.retries as u8 };
    proof {
        lemma_ia_confidence_valid();
    }
    match Provenance::try_new(source, Some(p.model_id.clone()), IA_CONFIDENCE, p.latency_ms, retries) {
        Ok(prov) => prov,
        Err(_) => Provenance::rust_native(),
    }
}

/// What [`ocr_to_payload`] returns for `resp`.
pub open spec fn ocr_payload_ok(resp: OcrResponse, r: Option<IaPayload>) -> bool {
    match (resp.result, resp.provenance) {
        (Some(res), Some(prov)) => if trim(res.text@).len() == 0 {
            r is None
        } else {
            r matches Some(IaPayload::Ocr { text, provenance }) && text@ == res.text@ && provenance@
                == provenance_of(prov)@
        },
        _ => r is None,
    }
}

/// OCR text as a payload; `None` without result, without provenance, or
/// with blank text.
pub fn ocr_to_payload(resp: &OcrResponse) -> (r: Option<IaPayload>)
    ensures
        ocr_payload_ok(*resp, r),
{
    match (&resp.result, &resp.provenance) {
        (Some(res), Some(prov)) => {
            if is_blank(res.text.as_str()) {
                None
            } else {
                Some(IaPayload::Ocr { text: res.text.clone(), provenance: build_provenance(prov) })
            }
        },
        _ => None,
    }
}

/// Table-cell text escaped for a GFM cell: `|` becomes `\|`, line breaks
/// become spaces.
pub open spec fn escape_cell(s: Seq<char>) -> Seq<char>
    decreases s.len(),
{
    if s.len() == 0 {
        seq![]
    } else {
        escape_cell(s.drop_last()) + if s.last() == '|' {
            seq!['\\', '|']
        } else if s.last() == '\n' {
            seq![' ']
        } else {
            seq![s.last()]
        }
    }
}

pub open spec fn cell_texts(cells: Seq<TableCell>) -> Seq<Seq<char>> {
    cells.map_values(|c: TableCell| escape_cell(c.text@))
}

/// `| a | b |`
pub open spec fn row_line(cells: Seq<TableCell>) -> Seq<char> {
    "| "@ + join(cell_texts(cells), " | "@) + " |"@
}

/// `| --- | --- |` with one `---` per column.
pub open spec fn separator_line(n: nat) -> Seq<char> {
    "| "@ + join(Seq::new(n, |i: int| "---"@), " | "@) + " |"@
}

/// The lines of a GFM table: each row, with the separator after the first.
pub open spec fn gfm_lines(rows: Seq<TableRow>) -> Seq<Seq<char>>
    decreases rows.len(),
{
    if rows.len() == 0 {
        seq![]
    } else if rows.len() == 1 {
        seq![row_line(rows[0].cells@), separator_line(rows[0].cells@.len())]
    } else {
        gfm_lines(rows.drop_last()).push(row_line(rows.last().cells@))
    }
}

/// The GFM table of some rows.
pub open spec fn gfm_table(rows: Seq<TableRow>) -> Seq<char> {
    join(gfm_lines(rows), seq!['\n'])
}

/// A GFM table of `n > 0` rows has `n + 1` lines: the first row, the
/// separator with one column per cell of the first row, then every other
/// row in order.
pub proof fn lemma_gfm_lines_shape(rows: Seq<TableRow>)
    requires
        rows.len() > 0,
    ensures
        gfm_lines(rows).len() == rows.len() + 1,
        gfm_lines(rows)[0] == row_line(rows[0].cells@),
        gfm_lines(rows)[1] == separator_line(rows[0].cells@.len()),
        forall|k: int| 1 <= k < rows.len() ==> #[trigger] gfm_lines(rows)[k + 1] == row_line(rows[k].cells@),
    decreases rows.len(),
{
    if rows.len() > 1 {
        let d = rows.drop_last();
        lemma_gfm_lines_shape(d);
        assert(d[0] == rows[0]);
        assert forall|k: int| 1 <= k < rows.len() implies #[trigger] gfm_lines(rows)[k + 1] == row_line(
            rows[k].cells@,
        ) by {
            if k < rows.len() - 1 {
                assert(d[k] == rows[k]);
                assert(gfm_lines(d)[k + 1] == row_line(d[k].cells@));
            }
        }
    }
}

/// No line break in `s`.
pub open spec fn one_line(s: Seq<char>) -> bool {
    forall|i: int| 0 <= i < s.len() ==> #[trigger] s[i] != '\n'
}

proof fn lemma_concat_one_line(a: Seq<char>, b: Seq<char>)
    requires
        one_line(a),
        one_line(b),
    ensures
        one_line(a + b),
{
    assert forall|i: int| 0 <= i < (a + b).len() implies #[trigger] (a + b)[i] != '\n' by {
        if i < a.len() {
            assert((a + b)[i] == a[i]);
        } else {
            assert((a + b)[i] == b[i - a.len()]);
        }
    }
}

proof fn lemma_escape_one_line(s: Seq<char>)
    ensures
        one_line(escape_cell(s)),
    decreases s.len(),
{
    if s.len() > 0 {
        lemma_escape_one_line(s.drop_last());
        let piece = if s.last() == '|' {
            seq!['\\', '|']
        } else if s.last() == '\n' {
            seq![' ']
        } else {
            seq![s.last()]
        };
        assert(one_line(piece));
        lemma_concat_one_line(escape_cell(s.drop_last()), piece);
    }
}

proof fn lemma_join_one_line(ws: Seq<Seq<char>>, sep: Seq<char>)
    requires
        forall|i: int| 0 <= i < ws.len() ==> one_line(#[trigger] ws[i]),
        one_line(sep),
    ensures
        one_line(join(ws, sep)),
    decreases ws.len(),
{
    if ws.len() > 1 {
        let d = ws.drop_last();
        assert forall|i: int| 0 <= i < d.len() implies one_line(#[trigger] d[i]) by {
            assert(d[i] == ws[i]);
        }
        lemma_join_one_line(d, sep);
        lemma_concat_one_line(join(d, sep), sep);
        assert(one_line(ws[ws.len() - 1]));
        lemma_concat_one_line(join(d, sep) + sep, ws.last());
    } else if ws.len() == 1 {
        assert(one_line(ws[0]));
    } else {
        assert(join(ws, sep).len() == 0);
    }
}

proof fn lemma_row_line_one_line(cells: Seq<TableCell>)
    ensures
        one_line(row_line(cells)),
{
    reveal_strlit("| ");
    reveal_strlit(" | ");
    reveal_strlit(" |");
    let ts = cell_texts(cells);
    assert forall|i: int| 0 <= i < ts.len() implies one_line(#[trigger] ts[i]) by {
        lemma_escape_one_line(cells[i].text@);
    }
    assert(one_line(" | "@));
    lemma_join_one_line(ts, " | "@);
    assert(one_line("| "@));
    assert(one_line(" |"@));
    lemma_concat_one_line("| "@, join(ts, " | "@));
    lemma_concat_one_line("| "@ + join(ts, " | "@), " |"@);
}

proof fn lemma_separator_one_line(n: nat)
    ensures
        one_line(separator_line(n)),
{
    reveal_strlit("| ");
    reveal_strlit(" | ");
    reveal_strlit(" |");
    reveal_strlit("---");
    let ds = Seq::new(n, |i: int| "---"@);
    assert forall|i: int| 0 <= i < ds.len() implies one_line(#[trigger] ds[i]) by {
        assert(ds[i] == "---"@);
    }
    assert(one_line(" | "@));
    lemma_join_one_line(ds, " | "@);
    assert(one_line("| "@));
    assert(one_line(" |"@));
    lemma_concat_one_line("| "@, join(ds, " | "@));
    lemma_concat_one_line("| "@ + join(ds, " | "@), " |"@);
}

proof fn lemma_nl_pieces_append(x: Seq<char>, y: Seq<char>)
    requires
        one_line(y),
    ensures
        nl_pieces(x).len() > 0,
        nl_pieces(x + y) == nl_pieces(x).update(nl_pieces(x).len() - 1, nl_pieces(x).last() + y),
    decreases x.len() + y.len(),
{
    if y.len() == 0 {
        if x.len() > 0 {
            lemma_nl_pieces_append(x.drop_last(), Seq::<char>::empty());
        }
        assert(x + y =~= x);
        assert(nl_pieces(x).last() + y =~= nl_pieces(x).last());
        assert(nl_pieces(x).update(nl_pieces(x).len() - 1, nl_pieces(x).last()) =~= nl_pieces(x));
    } else {
        let yd = y.drop_last();
        assert forall|i: int| 0 <= i < yd.len() implies #[trigger] yd[i] != '\n' by {
            assert(yd[i] == y[i]);
        }
        lemma_nl_pieces_append(x, yd);
        let c = y.last();
        assert(c == y[y.len() - 1]);
        assert((x + y).drop_last() =~= x + yd);
        assert((x + y).last() == c);
        let p = nl_pieces(x);
        let q = p.update(p.len() - 1, p.last() + yd);
        assert(q.last() == p.last() + yd);
        assert((p.last() + yd).push(c) =~= p.last() + y);
        assert(q.update(q.len() - 1, q.last().push(c)) =~= p.update(p.len() - 1, p.last() + y));
    }
}

proof fn lemma_nl_pieces_join(ls: Seq<Seq<char>>)
    requires
        ls.len() > 0,
        forall|i: int| 0 <= i < ls.len() ==> one_line(#[trigger] ls[i]),
    ensures
        nl_pieces(join(ls, seq!['\n'])) == ls,
    decreases ls.len(),
{
    if ls.len() == 1 {
        assert(one_line(ls[0]));
        lemma_nl_pieces_append(Seq::<char>::empty(), ls[0]);
        assert(Seq::<char>::empty() + ls[0] =~= ls[0]);
        assert(nl_pieces(Seq::<char>::empty()) == seq![Seq::<char>::empty()]);
        assert(ls =~= seq![ls[0]]);
        assert(seq![Seq::<char>::empty()].update(0, Seq::<char>::empty() + ls[0]) =~= ls);
    } else {
        let d = ls.drop_last();
        assert forall|i: int| 0 <= i < d.len() implies one_line(#[trigger] d[i]) by {
            assert(d[i] == ls[i]);
        }
        lemma_nl_pieces_join(d);
        let j0 = join(d, seq!['\n']);
        let x = j0 + seq!['\n'];
        assert(x.drop_last() =~= j0);
        assert(x.last() == '\n');
        assert(nl_pieces(x) == d.push(Seq::<char>::empty()));
        assert(one_line(ls[ls.len() - 1]));
        lemma_nl_pieces_append(x, ls.last());
        assert(d.push(Seq::<char>::empty()).update(d.len() as int, Seq::<char>::empty() + ls.last()) =~= ls);
    }
}

/// The text of a GFM table, split at its line breaks, gives back exactly
/// its lines: no cell text breaks a line, so a table of `n > 0` rows is
/// `n + 1` lines of text.
pub proof fn lemma_gfm_table_lines(rows: Seq<TableRow>)
    requires
        rows.len() > 0,
    ensures
        nl_pieces(gfm_table(rows)) == gfm_lines(rows),
        nl_pieces(gfm_table(rows)).len() == rows.len() + 1,
{
    lemma_gfm_lines_shape(rows);
    let ls = gfm_lines(rows);
    assert forall|i: int| 0 <= i < ls.len() implies one_line(#[trigger] ls[i]) by {
        if i == 0 {
            lemma_row_line_one_line(rows[0].cells@);
        } else if i == 1 {
            lemma_separator_one_line(rows[0].cells@.len());
        } else {
            assert(ls[(i - 1) + 1] == row_line(rows[i - 1].cells@));
            lemma_row_line_one_line(rows[i - 1].cells@);
        }
    }
    lemma_nl_pieces_join(ls);
}

fn escape_cell_exec(s: &String) -> (r: Vec<char>)
    ensures
        r@ == escape_cell(s@),
{
    let v = crate::chars::chars_of(s.as_str());
    let mut out: Vec<char> = Vec::new();
    for i in 0..v.len()
        invariant
            out@ == escape_cell(v@.take(i as int)),
    {
        proof {
            assert(v@.take(i + 1).drop_last() =~= v@.take(i as int));
        }
        let c = v[i];
        if c == '|' {
            out.push('\\');
            out.push('|');
        } else if c == '\n' {
            out.push(' ');
        } else {
            out.push(c);
        }
        assert(out@ =~= escape_cell(v@.take(i + 1)));
    }
    assert(v@.take(v@.len() as int) =~= v@);
    out
}

fn row_line_exec(cells: &Vec<TableCell>) -> (r: Vec<char>)
    ensures
        r@ == row_line(cells@),
{
    let mut parts: Vec<Vec<char>> = Vec::new();
    for i in 0..cells.len()
        invariant
            seq_views(parts@) == cell_texts(cells@.take(i as int)),
    {
        let ghost before = seq_views(parts@);
        let e = escape_cell_exec(&cells[i].text);
        let ghost ev = e@;
        parts.push(e);
        assert(seq_views(parts@) =~= before.push(ev));
        assert(cells@.take(i + 1) =~= cells@.take(i as int).push(cells@[i as int]));
        assert(cell_texts(cells@.take(i + 1)) =~= cell_texts(cells@.take(i as int)).push(
            escape_cell(cells@[i as int].text@),
        ));
        assert(seq_views(parts@) =~= cell_texts(cells@.take(i + 1)));
    }
    assert(cells@.take(cells@.len() as int) =~= cells@);
    let mut s = String::new();
    push_str(&mut s, "| ");
    push_joined_str(&mut s, &parts, " | ");
    push_str(&mut s, " |");
    crate::chars::chars_of(s.as_str())
}

fn separator_exec(n: usize) -> (r: Vec<char>)
    ensures
        r@ == separator_line(n as nat),
{
    let mut parts: Vec<Vec<char>> = Vec::new();
    for i in 0..n
        invariant
            seq_views(parts@) == Seq::new(i as nat, |k: int| "---"@),
    {
        let ghost before = seq_views(parts@);
        let dash = crate::chars::chars_of("---");
        let ghost dv = dash@;
        parts.push(dash);
        assert(seq_views(parts@) =~= before.push(dv));
        assert(seq_views(parts@) =~= Seq::new((i + 1) as nat, |k: int| "---"@));
    }
    let mut s = String::new();
    push_str(&mut s, "| ");
    push_joined_str(&mut s, &parts, " | ");
    push_str(&mut s, " |");
    crate::chars::chars_of(s.as_str())
}

/// The rows as a GitHub-flavoured Markdown table: the first row is the
/// header, followed by the separator line.
pub fn rows_to_gfm(rows: &Vec<TableRow>) -> (r: String)
    ensures
        r@ == gfm_table(rows@),
{
    let mut lines: Vec<Vec<char>> = Vec::new();
    for i in 0..rows.len()
        invariant
            seq_views(lines@) == gfm_lines(rows@.take(i as int)),
    {
        let ghost before = seq_views(lines@);
        proof {
            assert(rows@.take(i + 1).drop_last() =~= rows@.take(i as int));
        }
        let line = row_line_exec(&rows[i].cells);
        let ghost lv = line@;
        lines.push(line);
        assert(seq_views(lines@) =~= before.push(lv));
        if i == 0 {
            let sep = separator_exec(rows[i].cells.len());
            let ghost sv = sep@;
            lines.push(sep);
            assert(seq_views(lines@) =~= before.push(lv).push(sv));
            assert(rows@.take(1)[0] == rows@[0]);
            assert(before.len() == 0);
            assert(gfm_lines(rows@.take(1)) == seq![lv, sv]);
        } else {
            assert(rows@.take(i + 1).last() == rows@[i as int]);
        }
        assert(seq_views(lines@) =~= gfm_lines(rows@.take(i + 1)));
    }
    assert(rows@.take(rows@.len() as int) =~= rows@);
    let mut out = String::new();
    crate::text::push_joined(&mut out, &lines, '\n');
    out
}

/// What [`table_to_payload`] returns for `resp`.
pub open spec fn table_payload_ok(resp: TableResponse, r: Option<IaPayload>) -> bool {
    match (resp.result, resp.provenance) {
        (Some(res), Some(prov)) => if res.rows@.len() == 0 {
            r is None
        } else {
            r matches Some(IaPayload::Table { gfm_markdown, provenance }) && gfm_markdown@ == gfm_table(
                res.rows@,
            ) && provenance@ == provenance_of(prov)@
        },
        _ => r is None,
    }
}

/// An extracted table as a payload; `None` without result, without
/// provenance, or without rows.
pub fn table_to_payload(resp: &TableResponse) -> (r: Option<IaPayload>)
    ensures
        table_payload_ok(*resp, r),
{
    match (&resp.result, &resp.provenance) {
        (Some(res), Some(prov)) => {
            if res.rows.len() == 0 {
                None
            } else {
                Some(IaPayload::Table { gfm_markdown: rows_to_gfm(&res.rows), provenance: build_provenance(prov) })
            }
        },
        _ => None,
    }
}

/// What [`image_to_payload`] returns for `resp`.
pub open spec fn image_payload_ok(resp: ImageResponse, r: Option<IaPayload>) -> bool {
    match (resp.result, resp.provenance) {
        (Some(res), Some(prov)) => r matches Some(
            IaPayload::Image { caption, long_description, alt_text, provenance },
        ) && caption@ == res.caption@ && long_description@ == res.description@ && alt_text@ == (
        if res.alt_text@.len() == 0 {
            res.caption@
        } else {
            res.alt_text@
        }) && provenance@ == provenance_of(prov)@,
        _ => r is None,
    }
}

/// An image description as a payload; the alt text falls back to the
/// caption when empty.
pub fn image_to_payload(resp: &ImageResponse) -> (r: Option<IaPayload>)
    ensures
        image_payload_ok(*resp, r),
{
    match (&resp.result, &resp.provenance) {
        (Some(res), Some(prov)) => {
            let alt_text = if res.alt_text.as_str().is_empty() {
                res.caption.clone()
            } else {
                res.alt_text.clone()
            };
            Some(
                IaPayload::Image {
                    caption: res.caption.clone(),
                    long_description: res.description.clone(),
                    alt_text,
                    provenance: build_provenance(prov),
                },
            )
        },
        _ => None,
    }
}

/// What [`formula_to_payload`] returns for `resp`.
pub open spec fn formula_payload_ok(resp: FormulaResponse, r: Option<IaPayload>) -> bool {
    match (resp.result, resp.provenance) {
        (Some(res), Some(prov)) => if trim(res.latex@).len() == 0 {
            r is None
        } else {
            r matches Some(IaPayload::Formula { latex, mathml, provenance }) && latex@ == res.latex@
                && (if res.mathml@.len() == 0 {
                mathml is None
            } else {
                mathml matches Some(m) && m@ == res.mathml@
            }) && provenance@ == provenance_of(prov)@
        },
        _ => r is None,
    }
}

/// A recognized formula as a payload; `None` without result, without
/// provenance, or with blank LaTeX; empty MathML becomes `None`.
pub fn formula_to_payload(resp: &FormulaResponse) -> (r: Option<IaPayload>)
    ensures
        formula_payload_ok(*resp, r),
{
    match (&resp.result, &resp.provenance) {
        (Some(res), Some(prov)) => {
            if is_blank(res.latex.as_str()) {
                None
            } else {
                let mathml = if res.mathml.as_str().is_empty() {
                    None
                } else {
                    Some(res.mathml.clone())
                };
                Some(IaPayload::Formula { latex: res.latex.clone(), mathml, provenance: build_provenance(prov) })
            }
        },
        _ => None,
    }
}

// ---------------------------------------------------------------------------
// Vector paths
// ---------------------------------------------------------------------------

/// One drawing command of a vector path.
#[derive(Copy, Clone, Debug, PartialEq, Eq)]
pub enum Segment {
    MoveTo(Point),
    LineTo(Point),
    /// Cubic Bézier: control 1, control 2, end point.
    CurveTo([Point; 3]),
    Close,
}

/// A vector path of a page.
#[derive(Clone, Debug, PartialEq, Eq)]
pub struct VectorPath {
    pub segments: Vec<Segment>,
    pub stroke: bool,
    pub fill: bool,
    pub bbox: BBox,
}

/// A straight segment between two points.
#[derive(Copy, Clone, Debug, PartialEq, Eq)]
pub struct LineSegment {
    pub start: Point,
    pub end: Point,
}

/// Straight segments of one path and the pen position after it: each
/// `LineTo` from a known position gives a segment; curves move the pen
/// without giving one.
pub open spec fn path_segments(segs: Seq<Segment>) -> (Seq<LineSegment>, Option<Point>)
    decreases segs.len(),
{
    if segs.len() == 0 {
        (seq![], None)
    } else {
        let r = path_segments(segs.drop_last());
        match segs.last() {
            Segment::MoveTo(p) => (r.0, Some(p)),
            Segment::LineTo(p) => (
                match r.1 {
                    Some(s) => r.0.push(LineSegment { start: s, end: p }),
                    None => r.0,
                },
                Some(p),
            ),
            Segment::CurveTo(c) => (r.0, Some(c[2])),
            Segment::Close => r,
        }
    }
}

/// Straight segments of all paths, path after path.
pub open spec fn all_segments(paths: Seq<VectorPath>) -> Seq<LineSegment>
    decreases paths.len(),
{
    if paths.len() == 0 {
        seq![]
    } else {
        all_segments(paths.drop_last()) + path_segments(paths.last().segments@).0
    }
}

/// The straight `MoveTo`/`LineTo` segments of the paths, the input of
/// bordered-table detection.
pub fn paths_to_line_segments(paths: &Vec<VectorPath>) -> (r: Vec<LineSegment>)
    ensures
        r@ == all_segments(paths@),
{
    let mut out: Vec<LineSegment> = Vec::new();
    for i in 0..paths.len()
        invariant
            out@ == all_segments(paths@.take(i as int)),
    {
        let path = &paths[i];
        let ghost base = out@;
        proof {
            assert(paths@.take(i + 1).drop_last() =~= paths@.take(i as int));
            assert(base + path_segments(path.segments@.take(0)).0 =~= base);
        }
        let mut cursor: Option<Point> = None;
        for k in 0..path.segments.len()
            invariant
                path == &paths@[i as int],
                ({
                    let st = path_segments(path.segments@.take(k as int));
                    &&& out@ == base + st.0
                    &&& cursor == st.1
                }),
        {
            proof {
                assert(path.segments@.take(k + 1).drop_last() =~= path.segments@.take(k as int));
            }
            let ghost before = out@;
            match path.segments[k] {
                Segment::MoveTo(p) => {
                    cursor = Some(p);
                },
                Segment::LineTo(p) => {
                    match cursor {
                        Some(start) => {
                            out.push(LineSegment { start, end: p });
                        },
                        None => {},
                    }
                    cursor = Some(p);
                },
                Segment::CurveTo(c) => {
                    cursor = Some(c[2]);
                },
                Segment::Close => {},
            }
            assert(out@ =~= base + path_segments(path.segments@.take(k + 1)).0);
        }
        assert(path.segments@.take(path.segments@.len() as int) =~= path.segments@);
    }
    assert(paths@.take(paths@.len() as int) =~= paths@);
    out
}

// ---------------------------------------------------------------------------
// Streamed AI results
// ---------------------------------------------------------------------------

/// The payload of one streamed AI result.
#[derive(Clone, Debug, PartialEq, Eq)]
pub enum StreamPayload {
    Ocr(OcrResponse),
    Table(TableResponse),
    Image(ImageResponse),
    Formula(FormulaResponse),
    Error { code: i32, message: String },
}

/// One streamed AI result, tagged with the correlation id of its crop.
#[derive(Clone, Debug, PartialEq, Eq)]
pub struct StreamResult {
    pub correlation_id: String,
    pub payload: Option<StreamPayload>,
}

/// `corr-{index}-{block id}`: the correlation id of the `index`-th task.
pub open spec fn correlation_text(index: nat, block: BlockId) -> Seq<char> {
    "corr-"@ + dec(index) + seq!['-'] + uuid_text(block)
}

pub fn correlation_id(index: usize, block: BlockId) -> (r: String)
    ensures
        r@ == correlation_text(index as nat, block),
{
    let mut s = String::new();
    push_str(&mut s, "corr-");
    crate::strings::push_dec(&mut s, index as u64);
    push_char(&mut s, '-');
    crate::strings::push_uuid(&mut s, block);
    s
}

/// The block a correlation id was issued for: the first entry carrying it.
pub open spec fn block_of(ids: Seq<(Seq<char>, BlockId)>, corr: Seq<char>) -> Option<BlockId>
    decreases ids.len(),
{
    if ids.len() == 0 {
        None
    } else {
        match block_of(ids.drop_last(), corr) {
            Some(b) => Some(b),
            None => if ids.last().0 == corr {
                Some(ids.last().1)
            } else {
                None
            },
        }
    }
}

pub open spec fn id_views(ids: Seq<(String, BlockId)>) -> Seq<(Seq<char>, BlockId)> {
    ids.map_values(|e: (String, BlockId)| (e.0@, e.1))
}

fn lookup_block(ids: &Vec<(String, BlockId)>, corr: &String) -> (r: Option<BlockId>)
    ensures
        r == block_of(id_views(ids@), corr@),
{
    let ghost iv = id_views(ids@);
    for i in 0..ids.len()
        invariant
            iv == id_views(ids@),
            block_of(iv.take(i as int), corr@) is None,
    {
        proof {
            assert(iv.take(i + 1).drop_last() =~= iv.take(i as int));
            assert(iv.take(i + 1).last() == iv[i as int]);
        }
        if ids[i].0 == *corr {
            proof {
                assert(block_of(iv.take(i + 1), corr@) == Some(ids@[i as int].1));
                lemma_block_of_prefix(iv, i + 1, ids@[i as int].1, corr@);
            }
            return Some(ids[i].1);
        }
    }
    assert(iv.take(iv.len() as int) =~= iv);
    None
}

proof fn lemma_block_of_prefix(ids: Seq<(Seq<char>, BlockId)>, k: int, b: BlockId, corr: Seq<char>)
    requires
        0 <= k <= ids.len(),
        block_of(ids.take(k), corr) == Some(b),
    ensures
        block_of(ids, corr) == Some(b),
    decreases ids.len() - k,
{
    if k < ids.len() {
        assert(ids.take(k + 1).drop_last() =~= ids.take(k));
        lemma_block_of_prefix(ids, k + 1, b, corr);
    } else {
        assert(ids.take(k) =~= ids);
    }
}

/// What [`payload_of`] returns for a streamed payload.
pub open spec fn stream_payload_ok(p: Option<StreamPayload>, r: Option<IaPayload>) -> bool {
    match p {
        Some(StreamPayload::Ocr(resp)) => ocr_payload_ok(resp, r),
        Some(StreamPayload::Table(resp)) => table_payload_ok(resp, r),
        Some(StreamPayload::Image(resp)) => image_payload_ok(resp, r),
        Some(StreamPayload::Formula(resp)) => formula_payload_ok(resp, r),
        Some(StreamPayload::Error { .. }) => r is None,
        None => r is None,
    }
}

/// The fusion payload a streamed result carries, if any; error results
/// carry none.
pub fn payload_of(p: &Option<StreamPayload>) -> (r: Option<IaPayload>)
    ensures
        stream_payload_ok(*p, r),
{
    match p {
        Some(StreamPayload::Ocr(resp)) => ocr_to_payload(resp),
        Some(StreamPayload::Table(resp)) => table_to_payload(resp),
        Some(StreamPayload::Image(resp)) => image_to_payload(resp),
        Some(StreamPayload::Formula(resp)) => formula_to_payload(resp),
        Some(StreamPayload::Error { .. }) => None,
        None => None,
    }
}

/// Records one streamed result: a result whose correlation id is known
/// and which carries a payload stores it under its block; anything else
/// changes nothing.
pub fn absorb_result(
    results: &mut HashMap<BlockId, IaPayload>,
    ids: &Vec<(String, BlockId)>,
    item: &StreamResult,
)
    ensures
        match block_of(id_views(ids@), item.correlation_id@) {
            None => final(results)@ == old(results)@,
            Some(b) => (final(results)@ == old(results)@ && stream_payload_ok(item.payload, None)) || (
            exists|pl: IaPayload|
                final(results)@ == old(results)@.insert(b, pl) && stream_payload_ok(
                    item.payload,
                    Some(pl),
                )),
        },
{
    match lookup_block(ids, &item.correlation_id) {
        None => {},
        Some(b) => {
            match payload_of(&item.payload) {
                Some(pl) => {
                    let ghost g = pl;
                    results.insert(b, pl);
                    assert(results@ == old(results)@.insert(b, g));
                },
                None => {},
            }
        },
    }
}

// ---------------------------------------------------------------------------
// Pipeline outputs
// ---------------------------------------------------------------------------

/// What one parse produces.
pub struct ParseArtifacts {
    /// The document, native content fused with the AI payloads.
    pub document: Document,
    /// Semantic Markdown of the document.
    pub markdown: String,
    /// The document's graph.
    pub graph: GraphDocument,
    /// Crops and images saved to disk.
    pub media_paths: Vec<PathBuf>,
}

/// The last stage of a parse: fuses the AI payloads into the natively
/// extracted document (which stays as it is when there is none) and
/// renders the Markdown and the graph of the result.
pub fn finish_parse(
    native: Document,
    ia_results: &HashMap<BlockId, IaPayload>,
    md_opts: &MarkdownOptions,
) -> (r: ParseArtifacts)
    ensures
        r.document@ == (if ia_results@.len() == 0 {
            native@
        } else {
            fuse_doc(native@, ia_results@)
        }),
        r.markdown@ == render_spec(r.document, *md_opts),
        r.graph.meta@ == r.document.meta@,
        node_views(r.graph.nodes@) == graph_of(r.document).0,
        r.graph.edges@ == graph_of(r.document).1,
        r.media_paths@.len() == 0,
{
    let document = if ia_results.len() == 0 {
        native
    } else {
        merge(&native, ia_results)
    };
    let markdown = render_markdown(&document, md_opts);
    let graph = render_graph(&document);
    ParseArtifacts { document, markdown, graph, media_paths: Vec::new() }
}

// ---------------------------------------------------------------------------
// Text blocks of a page
// ---------------------------------------------------------------------------

/// Block type of a paragraph group.
pub open spec fn paragraph_block_type(k: ParagraphKind) -> BlockType {
    match k {
        ParagraphKind::Heading { level } => BlockType::Heading { level },
        ParagraphKind::Body => BlockType::Paragraph,
    }
}

/// Text of a paragraph: its words joined by single spaces, with letter
/// spacing and whitespace repaired (`normalize_text`).
pub open spec fn paragraph_text(words: Seq<Seq<char>>) -> Seq<char> {
    let raw = join(words, seq![' ']);
    if letter_spaced(raw) {
        collapse(trim(join(segments(raw), seq![' '])))
    } else {
        collapse(trim(raw))
    }
}

/// Text blocks of a page, in group order: for each paragraph group whose
/// text is not empty, its block type, box and text.
pub open spec fn paragraph_parts(groups: Seq<ParagraphGroup>, words: Seq<Seq<Seq<char>>>) -> Seq<
    (BlockType, BBox, Seq<char>),
>
    decreases groups.len(),
{
    if groups.len() == 0 {
        seq![]
    } else {
        let prev = paragraph_parts(groups.drop_last(), words.drop_last());
        let t = paragraph_text(words.last());
        if t.len() == 0 {
            prev
        } else {
            prev.push((paragraph_block_type(groups.last().kind), groups.last().bbox, t))
        }
    }
}

/// The words of each group, as character sequences.
pub open spec fn word_lists(v: Seq<Vec<String>>) -> Seq<Seq<Seq<char>>> {
    v.map_values(|w: Vec<String>| str_views(w@))
}

/// A text block part with its text as a character sequence.
pub open spec fn part_views(v: Seq<(BlockType, BBox, String)>) -> Seq<(BlockType, BBox, Seq<char>)> {
    v.map_values(|p: (BlockType, BBox, String)| (p.0, p.1, p.2@))
}

/// Appends `ws` to `out` with one space between them.
fn push_spaced(out: &mut String, ws: &Vec<String>)
    ensures
        final(out)@ == old(out)@ + join(str_views(ws@), seq![' ']),
{
    let ghost o = out@;
    let ghost all = str_views(ws@);
    for k in 0..ws.len()
        invariant
            all == str_views(ws@),
            out@ == o + join(all.take(k as int), seq![' ']),
    {
        proof {
            assert(all.take(k + 1).drop_last() =~= all.take(k as int));
            assert(all.take(k + 1).last() == ws@[k as int]@);
        }
        if k > 0 {
            push_char(out, ' ');
        } else {
            assert(all.take(1) =~= seq![all[0]]);
        }
        push_str(out, ws[k].as_str());
    }
    assert(all.take(ws@.len() as int) =~= all);
}

/// Block type of a paragraph group.
pub fn block_type_of(k: ParagraphKind) -> (r: BlockType)
    ensures
        r == paragraph_block_type(k),
{
    match k {
        ParagraphKind::Heading { level } => BlockType::Heading { level },
        ParagraphKind::Body => BlockType::Paragraph,
    }
}

/// The text blocks of a page: each group's words are joined by single
/// spaces and normalized; a group whose text comes out empty is skipped.
pub fn paragraph_blocks(groups: &Vec<ParagraphGroup>, words: &Vec<Vec<String>>) -> (r: Vec<
    (BlockType, BBox, String),
>)
    requires
        groups.len() == words.len(),
    ensures
        part_views(r@) == paragraph_parts(groups@, word_lists(words@)),
{
    let mut out: Vec<(BlockType, BBox, String)> = Vec::new();
    let ghost wl = word_lists(words@);
    for i in 0..groups.len()
        invariant
            groups.len() == words.len(),
            wl == word_lists(words@),
            part_views(out@) == paragraph_parts(groups@.take(i as int), wl.take(i as int)),
    {
        let mut raw = String::new();
        push_spaced(&mut raw, &words[i]);
        assert(raw@ == join(wl[i as int], seq![' ']));
        let text = normalize_text(raw.as_str());
        proof {
            assert(groups@.take(i + 1).drop_last() =~= groups@.take(i as int));
            assert(wl.take(i + 1).drop_last() =~= wl.take(i as int));
            assert(groups@.take(i + 1).last() == groups@[i as int]);
            assert(wl.take(i + 1).last() == wl[i as int]);
            assert(text@ == paragraph_text(wl[i as int]));
        }
        if !text.as_str().is_empty() {
            let part = (block_type_of(groups[i].kind), groups[i].bbox, text);
            let ghost before = out@;
            out.push(part);
            proof {
                assert(part_views(out@) =~= part_views(before).push((part.0, part.1, part.2@)));
            }
        }
    }
    proof {
        assert(groups@.take(groups.len() as int) =~= groups@);
        assert(wl.take(groups.len() as int) =~= wl);
    }
    out
}

} // verus!
