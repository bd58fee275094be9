//! Per-page text-quality signals: detection of glyphs whose Unicode
//! mapping is broken (replacement character, NUL, stray control codes),
//! and the severity rule that decides whether a page must go to OCR.

use vstd::prelude::*;

verus! {

/// Severity reported by the quality detectors.
#[derive(Copy, Clone, Debug, PartialEq, Eq, Hash, Structural)]
pub enum Severity {
    /// Native extraction is safe.
    Clean,
    /// Suspicious but not blocking.
    Warning,
    /// The page must skip native extraction and go to OCR.
    Critical,
}

impl Severity {
    pub fn is_critical(self) -> (r: bool)
        ensures
            r == (self == Severity::Critical),
    {
        match self {
            Severity::Critical => true,
            _ => false,
        }
    }
}

/// Below this many glyphs the entropy signal is not trusted.
pub const MIN_GLYPHS_FOR_SIGNAL: usize = 20;

/// A glyph whose Unicode mapping is broken: U+FFFD, NUL, or a control
/// character below 0x20 other than tab, line feed and carriage return.
pub open spec fn unmapped(c: char) -> bool {
    c == '\u{FFFD}' || c == '\u{0000}' || ((c as u32) < 0x20 && c != '\t' && c != '\n' && c != '\r')
}

pub fn is_unmapped(c: char) -> (r: bool)
    ensures
        r == unmapped(c),
{
    let code = c as u32;
    c == '\u{FFFD}' || c == '\u{0000}' || (code < 0x20 && c != '\t' && c != '\n' && c != '\r')
}

/// Number of unmapped glyphs.
pub open spec fn unmapped_count(s: Seq<char>) -> nat
    decreases s.len(),
{
    if s.len() == 0 {
        0
    } else {
        unmapped_count(s.drop_last()) + if unmapped(s.last()) { 1nat } else { 0nat }
    }
}

pub fn count_unmapped(unicodes: &Vec<char>) -> (n: usize)
    ensures
        n == unmapped_count(unicodes@),
        n <= unicodes@.len(),
{
    let mut n: usize = 0;
    for i in 0..unicodes.len()
        invariant
            n == unmapped_count(unicodes@.take(i as int)),
            n <= i,
    {
        proof {
            assert(unicodes@.take(i + 1).drop_last() =~= unicodes@.take(i as int));
        }
        if is_unmapped(unicodes[i]) {
            n = n + 1;
        }
    }
    assert(unicodes@.take(unicodes@.len() as int) =~= unicodes@);
    n
}

/// The unmapped ratio reaches the critical level (30 %).  A page without
/// glyphs has no ratio (`0 / 0` is NaN), which reaches no level.
pub open spec fn ratio_critical(glyphs: nat, unmapped: nat) -> bool {
    glyphs > 0 && 10 * unmapped >= 3 * glyphs
}

/// The unmapped ratio reaches the warning level (5 %); never on a page
/// without glyphs.
pub open spec fn ratio_warning(glyphs: nat, unmapped: nat) -> bool {
    glyphs > 0 && 20 * unmapped >= glyphs
}

/// The severity rule: critical when 30 % or more of the glyphs are
/// unmapped, or when a page with enough glyphs has too little entropy;
/// warning from 5 % unmapped; none otherwise.  The ratios are compared in
/// exact integer arithmetic, which agrees with the single-precision
/// comparison for pages of up to 2^24 glyphs.
pub open spec fn severity_spec(glyphs: nat, unmapped: nat, low_entropy: bool) -> Severity {
    if ratio_critical(glyphs, unmapped) {
        Severity::Critical
    } else if glyphs >= MIN_GLYPHS_FOR_SIGNAL && low_entropy {
        Severity::Critical
    } else if ratio_warning(glyphs, unmapped) {
        Severity::Warning
    } else {
        Severity::Clean
    }
}

/// Severity of a page of `glyphs` glyphs of which `unmapped` are broken;
/// `low_entropy` says whether the Shannon entropy of the code points is
/// below 2 bits.
pub fn severity_from_signals(glyphs: usize, unmapped: usize, low_entropy: bool) -> (r: Severity)
    requires
        unmapped <= glyphs,
    ensures
        r == severity_spec(glyphs as nat, unmapped as nat, low_entropy),
{
    let g = glyphs as u128;
    let u = unmapped as u128;
    if g > 0 && 10 * u >= 3 * g {
        return Severity::Critical;
    }
    if glyphs >= MIN_GLYPHS_FOR_SIGNAL && low_entropy {
        return Severity::Critical;
    }
    if g > 0 && 20 * u >= g {
        return Severity::Warning;
    }
    Severity::Clean
}

/// Rank of a severity: `Clean` < `Warning` < `Critical`.
pub open spec fn rank(s: Severity) -> int {
    match s {
        Severity::Clean => 0,
        Severity::Warning => 1,
        Severity::Critical => 2,
    }
}

/// More unmapped glyphs never lower the severity of a page.
pub proof fn lemma_severity_monotone(glyphs: nat, u1: nat, u2: nat, low_entropy: bool)
    requires
        u1 <= u2,
    ensures
        rank(severity_spec(glyphs, u1, low_entropy)) <= rank(severity_spec(glyphs, u2, low_entropy)),
{
}

/// A page with glyphs, all of them unmapped, is critical.
pub proof fn lemma_all_unmapped_is_critical(glyphs: nat, low_entropy: bool)
    requires
        glyphs > 0,
    ensures
        severity_spec(glyphs, glyphs, low_entropy) == Severity::Critical,
{
}

} // verus!
