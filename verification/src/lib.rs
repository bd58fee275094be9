//! Strata: the document model and the text, layout and serialization
//! logic of a PDF-to-Markdown/JSON reader, with machine-checked contracts.

use vstd::prelude::*;

pub mod bits;
pub mod bridge;
pub mod chars;
pub mod chunker;
pub mod digest;
pub mod fuser;
pub mod geometry;
pub mod graph;
pub mod headings;
pub mod layout;
pub mod markdown;
pub mod model;
pub mod pdf;
pub mod pipeline;
pub mod quality;
pub mod runtime;
pub mod sections;
pub mod strings;
pub mod text;

verus! {

/// Semantic version of the library.
pub fn version() -> (v: &'static str)
    ensures
        v@ == "0.1.0"@,
{
    proof {
        reveal_strlit("0.1.0");
    }
    "0.1.0"
}

} // verus!
