//! Heading classification support: the heading classes and the content
//! filter that keeps noise (stray numbers, symbols, watermarks) from being
//! taken for a heading.

use vstd::prelude::*;
use crate::chars::{chars_of, is_alphabetic, is_alphanumeric, is_ws, unicode_alphabetic, unicode_alphanumeric};
use crate::text::{trim, trim_bounds};

verus! {

/// Class of a text line.
#[derive(Copy, Clone, Debug, PartialEq, Eq, Structural)]
pub enum HeadingClass {
    /// Heading of level 1 (largest), 2, 3, …
    Heading { level: u8 },
    /// Body text.
    Body,
}

/// Deepest heading level the classifier emits.
pub const MAX_HEADING_LEVELS: u8 = 6;

/// Number of alphanumeric characters of `s`.
pub open spec fn alnum_count(s: Seq<char>) -> nat
    decreases s.len(),
{
    if s.len() == 0 {
        0
    } else {
        alnum_count(s.drop_last()) + if unicode_alphanumeric(s.last()) { 1nat } else { 0nat }
    }
}

/// Whether some character of `s` is alphabetic.
pub open spec fn has_letter(s: Seq<char>) -> bool {
    exists|i: int| 0 <= i < s.len() && unicode_alphabetic(#[trigger] s[i])
}

/// A line can be a heading only if its trimmed text has more than two
/// alphanumeric characters and at least one letter.
pub open spec fn heading_text_ok(text: Seq<char>) -> bool {
    alnum_count(trim(text)) > 2 && has_letter(trim(text))
}

proof fn lemma_alnum_count_concat(x: Seq<char>, y: Seq<char>)
    ensures
        alnum_count(x + y) == alnum_count(x) + alnum_count(y),
    decreases y.len(),
{
    if y.len() > 0 {
        lemma_alnum_count_concat(x, y.drop_last());
        assert((x + y).drop_last() =~= x + y.drop_last());
    } else {
        assert(x + y =~= x);
    }
}

proof fn lemma_alnum_count_none(x: Seq<char>)
    requires
        forall|i: int| 0 <= i < x.len() ==> !unicode_alphanumeric(#[trigger] x[i]),
    ensures
        alnum_count(x) == 0,
    decreases x.len(),
{
    if x.len() > 0 {
        lemma_alnum_count_none(x.drop_last());
    }
}

/// Trimming whitespace that is neither alphanumeric nor alphabetic changes
/// neither the count of alphanumerics nor whether a letter occurs.
proof fn lemma_trim_keeps_classes(s: Seq<char>, a: int, b: int)
    requires
        0 <= a <= b <= s.len(),
        forall|i: int| 0 <= i < a ==> is_ws(#[trigger] s[i]),
        forall|i: int| b <= i < s.len() ==> is_ws(#[trigger] s[i]),
        forall|i: int|
            0 <= i < s.len() && is_ws(#[trigger] s[i]) ==> !unicode_alphanumeric(s[i])
                && !unicode_alphabetic(s[i]),
    ensures
        alnum_count(s) == alnum_count(s.subrange(a, b)),
        has_letter(s) == has_letter(s.subrange(a, b)),
{
    let t = s.subrange(a, b);
    let pre = s.take(a);
    let post = s.skip(b);
    assert(s =~= pre + t + post);
    assert forall|i: int| 0 <= i < pre.len() implies !unicode_alphanumeric(#[trigger] pre[i]) by {
        assert(pre[i] == s[i]);
        assert(is_ws(s[i]));
    }
    assert forall|i: int| 0 <= i < post.len() implies !unicode_alphanumeric(#[trigger] post[i]) by {
        assert(post[i] == s[i + b]);
        assert(is_ws(s[i + b]));
    }
    lemma_alnum_count_none(pre);
    lemma_alnum_count_none(post);
    lemma_alnum_count_concat(pre, t);
    lemma_alnum_count_concat(pre + t, post);
    if has_letter(s) {
        let i = choose|i: int| 0 <= i < s.len() && unicode_alphabetic(#[trigger] s[i]);
        assert(!is_ws(s[i]));
        assert(t[i - a] == s[i]);
    }
    if has_letter(t) {
        let k = choose|k: int| 0 <= k < t.len() && unicode_alphabetic(#[trigger] t[k]);
        assert(s[k + a] == t[k]);
    }
}

/// `false` for lines whose text is too short or has no letter (bare
/// numbers, symbols): the text must hold more than two alphanumeric
/// characters and at least one letter.  Whitespace is neither, so the
/// trimmed and the whole text give the same answer.
pub fn heading_content_filter(text: &str) -> (r: bool)
    ensures
        r == heading_text_ok(text@),
        r == (alnum_count(text@) > 2 && has_letter(text@)),
{
    let v = chars_of(text);
    let (a, b) = trim_bounds(&v);
    let ghost t = v@.subrange(a as int, b as int);
    assert(t == trim(text@));
    let mut alnum: usize = 0;
    let mut letter = false;
    let mut i: usize = 0;
    while i < v.len()
        invariant
            i <= v@.len(),
            v@ == text@,
            alnum == alnum_count(v@.take(i as int)),
            alnum <= i,
            letter == (exists|k: int| 0 <= k < i && unicode_alphabetic(#[trigger] v@[k])),
            forall|k: int|
                0 <= k < i && is_ws(#[trigger] v@[k]) ==> !unicode_alphanumeric(v@[k])
                    && !unicode_alphabetic(v@[k]),
        decreases v@.len() - i,
    {
        let c = v[i];
        proof {
            assert(v@.take(i + 1).drop_last() =~= v@.take(i as int));
            assert(v@.take(i + 1).last() == c);
        }
        if is_alphanumeric(c) {
            alnum = alnum + 1;
        }
        if is_alphabetic(c) {
            letter = true;
        }
        i = i + 1;
    }
    assert(v@.take(v@.len() as int) =~= v@);
    proof {
        lemma_trim_keeps_classes(v@, a as int, b as int);
    }
    alnum > 2 && letter
}

} // verus!
