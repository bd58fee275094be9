//! Text normalization for extracted PDF text: whitespace collapsing and the
//! repair of artificial letter spacing ("j o u r n a l" → "journal").

use vstd::prelude::*;
use crate::chars::{chars_of, is_whitespace, is_ws};
use crate::strings::{push_char, string_from};

verus! {

/// Drop leading whitespace.
pub open spec fn trim_start(s: Seq<char>) -> Seq<char>
    decreases s.len(),
{
    if s.len() > 0 && is_ws(s[0]) {
        trim_start(s.drop_first())
    } else {
        s
    }
}

/// Drop trailing whitespace.
pub open spec fn trim_end(s: Seq<char>) -> Seq<char>
    decreases s.len(),
{
    if s.len() > 0 && is_ws(s.last()) {
        trim_end(s.drop_last())
    } else {
        s
    }
}

/// `str::trim`.
pub open spec fn trim(s: Seq<char>) -> Seq<char> {
    trim_end(trim_start(s))
}

/// Every run of whitespace becomes a single `' '`; other characters are kept.
pub open spec fn collapse(s: Seq<char>) -> Seq<char>
    decreases s.len(),
{
    if s.len() == 0 {
        seq![]
    } else {
        let r = collapse(s.drop_last());
        if is_ws(s.last()) {
            if r.len() > 0 && r.last() == ' ' {
                r
            } else {
                r.push(' ')
            }
        } else {
            r.push(s.last())
        }
    }
}

/// The whitespace-separated words of `s` (`str::split_whitespace`).
pub open spec fn words(s: Seq<char>) -> Seq<Seq<char>>
    decreases s.len(),
{
    if s.len() == 0 {
        seq![]
    } else {
        let w = words(s.drop_last());
        let c = s.last();
        if is_ws(c) {
            w
        } else if s.len() >= 2 && !is_ws(s[s.len() - 2]) && w.len() > 0 {
            w.update(w.len() - 1, w.last().push(c))
        } else {
            w.push(seq![c])
        }
    }
}

/// `sep`-separated concatenation.
pub open spec fn join(ws: Seq<Seq<char>>, sep: Seq<char>) -> Seq<char>
    decreases ws.len(),
{
    if ws.len() == 0 {
        seq![]
    } else if ws.len() == 1 {
        ws[0]
    } else {
        join(ws.drop_last(), sep) + sep + ws.last()
    }
}

/// Number of words of length one.
pub open spec fn count_single(ws: Seq<Seq<char>>) -> nat
    decreases ws.len(),
{
    if ws.len() == 0 {
        0
    } else {
        count_single(ws.drop_last()) + if ws.last().len() == 1 { 1nat } else { 0nat }
    }
}

pub proof fn lemma_trim_start(s: Seq<char>, k: int)
    requires
        0 <= k <= s.len(),
        forall|i: int| 0 <= i < k ==> is_ws(#[trigger] s[i]),
        k == s.len() || !is_ws(s[k]),
    ensures
        trim_start(s) == s.subrange(k, s.len() as int),
    decreases k,
{
    if k > 0 {
        let t = s.drop_first();
        assert forall|i: int| 0 <= i < k - 1 implies is_ws(#[trigger] t[i]) by {
            assert(t[i] == s[i + 1]);
        }
        lemma_trim_start(t, k - 1);
        assert(t.subrange(k - 1, t.len() as int) =~= s.subrange(k, s.len() as int));
    } else {
        assert(s.subrange(0, s.len() as int) =~= s);
    }
}

pub proof fn lemma_trim_end(s: Seq<char>, k: int)
    requires
        0 <= k <= s.len(),
        forall|i: int| k <= i < s.len() ==> is_ws(#[trigger] s[i]),
        k == 0 || !is_ws(s[k - 1]),
    ensures
        trim_end(s) == s.subrange(0, k),
    decreases s.len() - k,
{
    if k < s.len() {
        let t = s.drop_last();
        assert forall|i: int| k <= i < t.len() implies is_ws(#[trigger] t[i]) by {
            assert(t[i] == s[i]);
        }
        lemma_trim_end(t, k);
        assert(t.subrange(0, k) =~= s.subrange(0, k));
    } else {
        assert(s.subrange(0, k) =~= s);
    }
}

/// Bounds `[a, b)` of the trimmed text: `trim(v) == v[a..b]`.
pub fn trim_bounds(v: &Vec<char>) -> (r: (usize, usize))
    ensures
        r.0 <= r.1 <= v@.len(),
        trim(v@) == v@.subrange(r.0 as int, r.1 as int),
        forall|i: int| 0 <= i < r.0 ==> is_ws(#[trigger] v@[i]),
        forall|i: int| r.1 <= i < v@.len() ==> is_ws(#[trigger] v@[i]),
{
    let n = v.len();
    let mut a: usize = 0;
    while a < n && is_whitespace(v[a])
        invariant
            a <= n == v@.len(),
            forall|i: int| 0 <= i < a ==> is_ws(#[trigger] v@[i]),
        decreases n - a,
    {
        a = a + 1;
    }
    proof {
        lemma_trim_start(v@, a as int);
    }
    let ghost t = v@.subrange(a as int, n as int);
    let mut b: usize = n;
    while b > a && is_whitespace(v[b - 1])
        invariant
            a <= b <= n == v@.len(),
            t == v@.subrange(a as int, n as int),
            forall|i: int| 0 <= i < a ==> is_ws(#[trigger] v@[i]),
            forall|i: int| b <= i < n ==> is_ws(#[trigger] v@[i]),
        decreases b,
    {
        b = b - 1;
    }
    proof {
        assert forall|i: int| b - a <= i < t.len() implies is_ws(#[trigger] t[i]) by {
            assert(t[i] == v@[i + a]);
        }
        if b > a {
            assert(t[b - a - 1] == v@[b - 1]);
        }
        lemma_trim_end(t, b - a);
        assert(t.subrange(0, b - a) =~= v@.subrange(a as int, b as int));
    }
    (a, b)
}

/// Length of `v` without its trailing whitespace: `trim_end(v) == v[..n]`.
pub fn trim_end_len(v: &Vec<char>) -> (n: usize)
    ensures
        n <= v@.len(),
        trim_end(v@) == v@.subrange(0, n as int),
{
    let mut b: usize = v.len();
    while b > 0 && is_whitespace(v[b - 1])
        invariant
            b <= v@.len(),
            forall|i: int| b <= i < v@.len() ==> is_ws(#[trigger] v@[i]),
        decreases b,
    {
        b = b - 1;
    }
    proof {
        lemma_trim_end(v@, b as int);
    }
    b
}

/// Appends `trim(s)` to `out`.
pub fn push_trimmed(out: &mut String, s: &str)
    ensures
        final(out)@ == old(out)@ + trim(s@),
{
    let v = chars_of(s);
    let (a, b) = trim_bounds(&v);
    crate::strings::push_range(out, &v, a, b);
}

/// Appends `trim_end(s)` to `out`.
pub fn push_trimmed_end(out: &mut String, s: &str)
    ensures
        final(out)@ == old(out)@ + trim_end(s@),
{
    let v = chars_of(s);
    let b = trim_end_len(&v);
    crate::strings::push_range(out, &v, 0, b);
}

/// `s.trim().is_empty()`.
pub fn is_blank(s: &str) -> (r: bool)
    ensures
        r == (trim(s@).len() == 0),
{
    let v = chars_of(s);
    let (a, b) = trim_bounds(&v);
    a == b
}

/// Collapse every run of whitespace into one space and strip the ends.
pub fn normalize_whitespace(text: &str) -> (r: String)
    ensures
        r@ == collapse(trim(text@)),
        r@ == join(words(text@), seq![' ']),
{
    let v = chars_of(text);
    let (a, b) = trim_bounds(&v);
    let ghost t = v@.subrange(a as int, b as int);
    let mut result = String::new();
    let mut last_was_space = false;
    let mut i = a;
    while i < b
        invariant
            a <= i <= b <= v@.len(),
            t == v@.subrange(a as int, b as int),
            result@ == collapse(t.subrange(0, i - a)),
            last_was_space == (result@.len() > 0 && result@.last() == ' '),
        decreases b - i,
    {
        let c = v[i];
        proof {
            assert(t.subrange(0, i + 1 - a).drop_last() =~= t.subrange(0, i - a));
            assert(t.subrange(0, i + 1 - a).last() == c);
        }
        if is_whitespace(c) {
            if !last_was_space {
                push_char(&mut result, ' ');
                last_was_space = true;
            }
        } else {
            push_char(&mut result, c);
            last_was_space = false;
        }
        i = i + 1;
    }
    proof {
        assert(t.subrange(0, b - a) =~= t);
        lemma_normalized_is_joined_words(text@);
    }
    result
}


/// State of the letter-spacing scan after reading `s`: finished segments,
/// the length of the current run of `' '`, and the segment being built.
pub open spec fn seg_state(s: Seq<char>) -> (Seq<Seq<char>>, nat, Seq<char>)
    decreases s.len(),
{
    if s.len() == 0 {
        (seq![], 0, seq![])
    } else {
        let st = seg_state(s.drop_last());
        let c = s.last();
        if c == ' ' {
            (st.0, st.1 + 1, st.2)
        } else if st.1 >= 2 && st.2.len() > 0 {
            (st.0.push(st.2), 0, seq![c])
        } else {
            (st.0, 0, st.2.push(c))
        }
    }
}

/// The words recovered from letter-spaced text: maximal groups of
/// non-space characters, where single spaces are dropped and runs of two
/// or more spaces separate words.
pub open spec fn segments(s: Seq<char>) -> Seq<Seq<char>> {
    let st = seg_state(s);
    if st.2.len() > 0 {
        st.0.push(st.2)
    } else {
        st.0
    }
}

/// The letter-spacing repair is applied when more than 30 % of the words
/// have a single character (decided in exact rational arithmetic).
pub open spec fn letter_spaced(s: Seq<char>) -> bool {
    words(s).len() > 0 && 10 * count_single(words(s)) > 3 * words(s).len()
}

pub open spec fn seq_views(v: Seq<Vec<char>>) -> Seq<Seq<char>> {
    v.map_values(|w: Vec<char>| w@)
}

/// Number of words and of single-character words.
pub fn word_stats(v: &Vec<char>) -> (r: (usize, usize))
    ensures
        r.0 == words(v@).len(),
        r.1 == count_single(words(v@)),
{
    let mut count: usize = 0;
    let mut singles: usize = 0;
    let mut cur_len: usize = 0;
    let mut i: usize = 0;
    while i < v.len()
        invariant
            i <= v@.len(),
            count == words(v@.take(i as int)).len(),
            singles == count_single(words(v@.take(i as int))),
            singles <= count <= i,
            cur_len <= i,
            i > 0 && !is_ws(v@[i - 1]) ==> words(v@.take(i as int)).len() > 0 && words(
                v@.take(i as int),
            ).last().len() == cur_len,
            !(i > 0 && !is_ws(v@[i - 1])) ==> cur_len == 0,
        decreases v@.len() - i,
    {
        let c = v[i];
        let ghost p = v@.take(i as int);
        let ghost q = v@.take(i + 1);
        let ghost w = words(p);
        proof {
            assert(q.drop_last() =~= p);
            assert(q.last() == c);
            if i > 0 {
                assert(q[q.len() - 2] == v@[i - 1]);
            }
        }
        if is_whitespace(c) {
            cur_len = 0;
        } else if cur_len > 0 {
            proof {
                let w2 = w.update(w.len() - 1, w.last().push(c));
                assert(w2.drop_last() =~= w.drop_last());
            }
            if cur_len == 1 {
                singles = singles - 1;
            }
            cur_len = cur_len + 1;
        } else {
            proof {
                assert(w.push(seq![c]).drop_last() =~= w);
            }
            count = count + 1;
            singles = singles + 1;
            cur_len = 1;
        }
        i = i + 1;
    }
    assert(v@.take(v@.len() as int) =~= v@);
    (count, singles)
}

/// The whitespace-separated words of `v`.
pub fn split_words(v: &Vec<char>) -> (r: Vec<Vec<char>>)
    ensures
        seq_views(r@) == words(v@),
{
    let mut done: Vec<Vec<char>> = Vec::new();
    let mut cur: Vec<char> = Vec::new();
    let mut i: usize = 0;
    while i < v.len()
        invariant
            i <= v@.len(),
            seq_views(done@) + (if cur@.len() > 0 { seq![cur@] } else { seq![] }) == words(
                v@.take(i as int),
            ),
            cur@.len() > 0 <==> (i > 0 && !is_ws(v@[i - 1])),
        decreases v@.len() - i,
    {
        let c = v[i];
        let ghost p = v@.take(i as int);
        let ghost q = v@.take(i + 1);
        let ghost d = seq_views(done@);
        proof {
            assert(q.drop_last() =~= p);
            assert(q.last() == c);
            if i > 0 {
                assert(q[q.len() - 2] == v@[i - 1]);
            }
        }
        if is_whitespace(c) {
            if cur.len() > 0 {
                let w = cur;
                done.push(w);
                assert(seq_views(done@) =~= d.push(w@));
                assert(d + seq![w@] =~= d.push(w@));
                cur = Vec::new();
            }
            assert(seq_views(done@) + Seq::<Seq<char>>::empty() =~= seq_views(done@));
        } else {
            let ghost old_cur = cur@;
            cur.push(c);
            proof {
                if old_cur.len() > 0 {
                    let w = d + seq![old_cur];
                    assert(w.update(w.len() - 1, w.last().push(c)) =~= d + seq![cur@]);
                } else {
                    assert(d + Seq::<Seq<char>>::empty() =~= d);
                    assert(cur@ =~= seq![c]);
                    assert(d.push(seq![c]) =~= d + seq![cur@]);
                }
            }
        }
        i = i + 1;
    }
    assert(v@.take(v@.len() as int) =~= v@);
    if cur.len() > 0 {
        let ghost d = seq_views(done@);
        let w = cur;
        done.push(w);
        assert(seq_views(done@) =~= d + seq![w@]);
    } else {
        assert(seq_views(done@) + Seq::<Seq<char>>::empty() =~= seq_views(done@));
    }
    done
}

/// Appends the pieces of `ws` to `out` with `sep` between them.
pub fn push_joined_str(out: &mut String, ws: &Vec<Vec<char>>, sep: &str)
    ensures
        final(out)@ == old(out)@ + join(seq_views(ws@), sep@),
{
    let ghost o = out@;
    let ghost all = seq_views(ws@);
    for k in 0..ws.len()
        invariant
            all == seq_views(ws@),
            out@ == o + join(all.take(k as int), sep@),
    {
        proof {
            assert(all.take(k + 1).drop_last() =~= all.take(k as int));
            assert(all.take(k + 1).last() == ws@[k as int]@);
        }
        if k > 0 {
            crate::strings::push_str(out, sep);
        } else {
            assert(all.take(1) =~= seq![all[0]]);
        }
        crate::strings::push_chars(out, &ws[k]);
    }
    assert(all.take(ws@.len() as int) =~= all);
}

/// Appends `sep`-joined words to `out`.
pub fn push_joined(out: &mut String, ws: &Vec<Vec<char>>, sep: char)
    ensures
        final(out)@ == old(out)@ + join(seq_views(ws@), seq![sep]),
{
    let ghost o = out@;
    let ghost all = seq_views(ws@);
    for k in 0..ws.len()
        invariant
            all == seq_views(ws@),
            out@ == o + join(all.take(k as int), seq![sep]),
    {
        proof {
            assert(all.take(k + 1).drop_last() =~= all.take(k as int));
            assert(all.take(k + 1).last() == ws@[k as int]@);
        }
        if k > 0 {
            push_char(out, sep);
        } else {
            assert(all.take(1) =~= seq![all[0]]);
        }
        crate::strings::push_chars(out, &ws[k]);
    }
    assert(all.take(ws@.len() as int) =~= all);
}

/// Repair artificial letter spacing.
///
/// When more than 30 % of the whitespace-separated words are single
/// characters, single spaces are treated as intra-word spacing and runs of
/// two or more spaces as word boundaries; the recovered words are joined by
/// one space.  Otherwise the text is returned unchanged.
pub fn fix_letter_spacing(text: &str) -> (r: String)
    ensures
        letter_spaced(text@) ==> r@ == join(segments(text@), seq![' ']),
        !letter_spaced(text@) ==> r@ == text@,
{
    let v = chars_of(text);
    let (count, singles) = word_stats(&v);
    if count == 0 || !(10 * (singles as u128) > 3 * (count as u128)) {
        return string_from(&v);
    }
    let mut ws: Vec<Vec<char>> = Vec::new();
    let mut spaces: usize = 0;
    let mut cur: Vec<char> = Vec::new();
    let mut i: usize = 0;
    while i < v.len()
        invariant
            i <= v@.len(),
            seg_state(v@.take(i as int)) == (seq_views(ws@), spaces as nat, cur@),
            spaces <= i,
        decreases v@.len() - i,
    {
        let c = v[i];
        proof {
            assert(v@.take(i + 1).drop_last() =~= v@.take(i as int));
            assert(v@.take(i + 1).last() == c);
        }
        if c == ' ' {
            spaces = spaces + 1;
        } else {
            if spaces >= 2 && cur.len() > 0 {
                let ghost old_ws = seq_views(ws@);
                let done = cur;
                ws.push(done);
                proof {
                    assert(seq_views(ws@) =~= old_ws.push(done@));
                }
                cur = Vec::new();
            }
            spaces = 0;
            cur.push(c);
        }
        i = i + 1;
    }
    assert(v@.take(v@.len() as int) =~= v@);
    if cur.len() > 0 {
        let ghost old_ws = seq_views(ws@);
        let done = cur;
        ws.push(done);
        proof {
            assert(seq_views(ws@) =~= old_ws.push(done@));
        }
    }
    let mut out = String::new();
    push_joined(&mut out, &ws, ' ');
    out
}

/// Letter-spacing repair followed by whitespace normalization.
pub fn normalize_text(raw: &str) -> (r: String)
    ensures
        letter_spaced(raw@) ==> r@ == collapse(trim(join(segments(raw@), seq![' ']))),
        !letter_spaced(raw@) ==> r@ == collapse(trim(raw@)),
{
    let fixed = fix_letter_spacing(raw);
    normalize_whitespace(fixed.as_str())
}

/// A word: non-empty and free of whitespace.
pub open spec fn is_word(w: Seq<char>) -> bool {
    w.len() > 0 && forall|j: int| 0 <= j < w.len() ==> !is_ws(#[trigger] w[j])
}

/// Every character is whitespace.
pub open spec fn all_ws(t: Seq<char>) -> bool {
    forall|j: int| 0 <= j < t.len() ==> is_ws(#[trigger] t[j])
}

/// Total number of words of a list of texts.
pub open spec fn word_total(ps: Seq<Seq<char>>) -> nat
    decreases ps.len(),
{
    if ps.len() == 0 {
        0
    } else {
        word_total(ps.drop_last()) + words(ps.last()).len()
    }
}

/// Trailing whitespace adds no word.
pub proof fn lemma_words_ws_suffix(x: Seq<char>, t: Seq<char>)
    requires
        all_ws(t),
    ensures
        words(x + t) == words(x),
    decreases t.len(),
{
    if t.len() > 0 {
        assert((x + t).drop_last() =~= x + t.drop_last());
        assert((x + t).last() == t.last());
        lemma_words_ws_suffix(x, t.drop_last());
    } else {
        assert(x + t =~= x);
    }
}

/// After a whitespace boundary, the words of a concatenation are the words
/// of each side.
pub proof fn lemma_words_concat(z: Seq<char>, y: Seq<char>)
    requires
        z.len() == 0 || is_ws(z.last()),
    ensures
        words(z + y) == words(z) + words(y),
    decreases y.len(),
{
    if y.len() == 0 {
        assert(z + y =~= z);
        assert(words(z) + words(y) =~= words(z));
    } else {
        let yp = y.drop_last();
        let c = y.last();
        let s = z + y;
        assert(s.drop_last() =~= z + yp);
        assert(s.last() == c);
        lemma_words_concat(z, yp);
        let wz = words(z);
        let wy = words(yp);
        if !is_ws(c) {
            if yp.len() > 0 {
                assert(s[s.len() - 2] == yp.last());
                assert(y[y.len() - 2] == yp.last());
                if !is_ws(yp.last()) {
                    assert(wy.len() > 0);
                    assert((wz + wy).update((wz + wy).len() - 1, (wz + wy).last().push(c))
                        =~= wz + wy.update(wy.len() - 1, wy.last().push(c)));
                } else {
                    assert((wz + wy).push(seq![c]) =~= wz + wy.push(seq![c]));
                }
            } else {
                assert(yp.len() == 0);
                if s.len() >= 2 {
                    assert(s[s.len() - 2] == z.last());
                }
                assert(wy =~= Seq::<Seq<char>>::empty());
                assert((wz + wy).push(seq![c]) =~= wz + wy.push(seq![c]));
            }
        } else {
            assert(words(s) == wz + wy);
        }
    }
}

/// A single word splits into itself.
pub proof fn lemma_words_single(w: Seq<char>)
    requires
        is_word(w),
    ensures
        words(w) == seq![w],
    decreases w.len(),
{
    let d = w.drop_last();
    let c = w.last();
    assert(!is_ws(c)) by {
        assert(c == w[w.len() - 1]);
    }
    if w.len() == 1 {
        assert(d.len() == 0);
        assert(words(d) =~= Seq::<Seq<char>>::empty());
        assert(w =~= seq![c]);
    } else {
        assert forall|j: int| 0 <= j < d.len() implies !is_ws(#[trigger] d[j]) by {
            assert(d[j] == w[j]);
        }
        lemma_words_single(d);
        assert(w[w.len() - 2] == d[d.len() - 1]);
        assert(!is_ws(w[w.len() - 2]));
        assert(d.push(c) =~= w);
        assert(seq![d].update(0, d.push(c)) =~= seq![w]);
    }
}

/// Every element of `words(s)` is a word.
pub proof fn lemma_words_are_words(s: Seq<char>)
    ensures
        forall|i: int| 0 <= i < words(s).len() ==> is_word(#[trigger] words(s)[i]),
    decreases s.len(),
{
    if s.len() > 0 {
        let d = s.drop_last();
        lemma_words_are_words(d);
        let w = words(d);
        let c = s.last();
        if is_ws(c) {
        } else if s.len() >= 2 && !is_ws(s[s.len() - 2]) && w.len() > 0 {
            let w2 = w.update(w.len() - 1, w.last().push(c));
            assert forall|i: int| 0 <= i < w2.len() implies is_word(#[trigger] w2[i]) by {
                if i == w.len() - 1 {
                    let x = w.last();
                    assert(is_word(x));
                    let y = x.push(c);
                    assert forall|j: int| 0 <= j < y.len() implies !is_ws(#[trigger] y[j]) by {
                        if j < x.len() {
                            assert(y[j] == x[j]);
                        }
                    }
                } else {
                    assert(w2[i] == w[i]);
                }
            }
        } else {
            let w2 = w.push(seq![c]);
            assert forall|i: int| 0 <= i < w2.len() implies is_word(#[trigger] w2[i]) by {
                if i == w.len() {
                    assert(w2[i] == seq![c]);
                    assert(seq![c][0] == c);
                } else {
                    assert(w2[i] == w[i]);
                }
            }
        }
    }
}

/// Words joined by whitespace split back into the same words.
pub proof fn lemma_join_words(ws: Seq<Seq<char>>, sep: Seq<char>)
    requires
        forall|i: int| 0 <= i < ws.len() ==> is_word(#[trigger] ws[i]),
        sep.len() > 0,
        all_ws(sep),
    ensures
        words(join(ws, sep)) == ws,
    decreases ws.len(),
{
    if ws.len() == 1 {
        lemma_words_single(ws[0]);
        assert(ws =~= seq![ws[0]]);
    } else if ws.len() > 1 {
        let d = ws.drop_last();
        assert forall|i: int| 0 <= i < d.len() implies is_word(#[trigger] d[i]) by {
            assert(d[i] == ws[i]);
        }
        lemma_join_words(d, sep);
        lemma_words_ws_suffix(join(d, sep), sep);
        let z = join(d, sep) + sep;
        assert(z.last() == sep.last());
        assert(is_ws(sep[sep.len() - 1]));
        lemma_words_concat(z, ws.last());
        lemma_words_single(ws.last());
        assert(d + seq![ws.last()] =~= ws);
    }
}

/// Joining by whitespace neither creates nor merges words.
pub proof fn lemma_join_word_count(ps: Seq<Seq<char>>, sep: Seq<char>)
    requires
        sep.len() > 0,
        all_ws(sep),
    ensures
        words(join(ps, sep)).len() == word_total(ps),
    decreases ps.len(),
{
    if ps.len() == 1 {
        assert(ps.drop_last().len() == 0);
        assert(word_total(ps.drop_last()) == 0);
        assert(ps.last() == ps[0]);
    } else if ps.len() > 1 {
        let d = ps.drop_last();
        lemma_join_word_count(d, sep);
        lemma_words_ws_suffix(join(d, sep), sep);
        let z = join(d, sep) + sep;
        assert(z.last() == sep.last());
        assert(is_ws(sep[sep.len() - 1]));
        lemma_words_concat(z, ps.last());
    }
}

/// Appending a character to the last word appends it to the joined text.
proof fn lemma_join_extend_last(ws: Seq<Seq<char>>, sep: Seq<char>, c: char)
    requires
        ws.len() > 0,
    ensures
        join(ws.update(ws.len() - 1, ws.last().push(c)), sep) == join(ws, sep).push(c),
{
    let u = ws.update(ws.len() - 1, ws.last().push(c));
    if ws.len() > 1 {
        assert(u.drop_last() =~= ws.drop_last());
        assert(join(u.drop_last(), sep) + sep + ws.last().push(c)
            =~= (join(ws.drop_last(), sep) + sep + ws.last()).push(c));
    }
}

/// Adding a word after at least one other puts a separator before it.
proof fn lemma_join_push(ws: Seq<Seq<char>>, sep: Seq<char>, x: Seq<char>)
    requires
        ws.len() > 0,
    ensures
        join(ws.push(x), sep) == join(ws, sep) + sep + x,
{
    assert(ws.push(x).drop_last() =~= ws);
}

/// A non-empty list of words joins into text that ends with the last
/// character of its last word.
proof fn lemma_join_last(ws: Seq<Seq<char>>, sep: Seq<char>)
    requires
        ws.len() > 0,
        ws.last().len() > 0,
    ensures
        join(ws, sep).len() > 0,
        join(ws, sep).last() == ws.last().last(),
{
}

/// The one space that marks trailing whitespace.
spec fn ws_tail(s: Seq<char>) -> Seq<char> {
    if s.len() > 0 && is_ws(s.last()) {
        seq![' ']
    } else {
        seq![]
    }
}

/// Without leading whitespace, collapsing is joining the words by one
/// space, followed by a space where the text ends in whitespace.
proof fn lemma_collapse_words(s: Seq<char>)
    requires
        s.len() == 0 || !is_ws(s[0]),
    ensures
        collapse(s) == join(words(s), seq![' ']) + ws_tail(s),
        s.len() > 0 ==> words(s).len() > 0,
    decreases s.len(),
{
    let sp = seq![' '];
    if s.len() == 0 {
        assert(collapse(s) =~= join(words(s), sp) + ws_tail(s));
    } else {
        let d = s.drop_last();
        let c = s.last();
        if d.len() > 0 {
            assert(d[0] == s[0]);
        }
        lemma_collapse_words(d);
        lemma_words_are_words(d);
        let w = words(d);
        let r = collapse(d);
        assert(is_ws(' '));
        if is_ws(c) {
            assert(words(s) == w);
            if d.len() > 0 && is_ws(d.last()) {
                assert(r =~= join(w, sp) + sp);
                assert(r.last() == ' ');
                assert(collapse(s) == r);
            } else {
                assert(r =~= join(w, sp));
                if w.len() > 0 {
                    assert(is_word(w[w.len() - 1]));
                    let lw = w.last();
                    assert(!is_ws(lw[lw.len() - 1]));
                    lemma_join_last(w, sp);
                    assert(r.last() != ' ');
                }
                assert(collapse(s) == r.push(' '));
            }
            assert(collapse(s) =~= join(words(s), sp) + ws_tail(s));
        } else {
            assert(ws_tail(s) =~= Seq::<char>::empty());
            assert(collapse(s) == r.push(c));
            if s.len() >= 2 && !is_ws(s[s.len() - 2]) && w.len() > 0 {
                assert(d.last() == s[s.len() - 2]);
                assert(r =~= join(w, sp));
                lemma_join_extend_last(w, sp, c);
            } else if d.len() == 0 {
                assert(w =~= Seq::<Seq<char>>::empty());
                assert(words(s) =~= seq![seq![c]]);
                assert(collapse(s) =~= seq![c]);
            } else {
                assert(d.last() == s[s.len() - 2]);
                assert(is_ws(d.last()));
                assert(r =~= join(w, sp) + sp);
                lemma_join_push(w, sp, seq![c]);
                assert(join(w, sp) + sp + seq![c] =~= r.push(c));
            }
            assert(collapse(s) =~= join(words(s), sp) + ws_tail(s));
        }
    }
}

/// Leading whitespace adds no word.
proof fn lemma_trim_start_words(s: Seq<char>)
    ensures
        words(trim_start(s)) == words(s),
        trim_start(s).len() == 0 || !is_ws(trim_start(s)[0]),
    decreases s.len(),
{
    if s.len() > 0 && is_ws(s[0]) {
        let z = seq![s[0]];
        let y = s.drop_first();
        lemma_trim_start_words(y);
        assert(z + y =~= s);
        lemma_words_concat(z, y);
        assert(z.drop_last() =~= Seq::<char>::empty());
        assert(z.last() == s[0]);
        assert(words(z.drop_last()) =~= Seq::<Seq<char>>::empty());
        assert(words(z) =~= Seq::<Seq<char>>::empty());
        assert(words(z) + words(y) =~= words(y));
    }
}

/// Trailing whitespace adds no word, and dropping it keeps the first
/// character.
proof fn lemma_trim_end_words(s: Seq<char>)
    requires
        s.len() == 0 || !is_ws(s[0]),
    ensures
        words(trim_end(s)) == words(s),
        trim_end(s).len() == 0 || !is_ws(trim_end(s)[0]),
        trim_end(s).len() == 0 || !is_ws(trim_end(s).last()),
    decreases s.len(),
{
    if s.len() > 0 && is_ws(s.last()) {
        let d = s.drop_last();
        if d.len() > 0 {
            assert(d[0] == s[0]);
        }
        lemma_trim_end_words(d);
    }
}

/// Collapsing the trimmed text joins its words by single spaces.
pub proof fn lemma_normalized_is_joined_words(s: Seq<char>)
    ensures
        collapse(trim(s)) == join(words(s), seq![' ']),
{
    lemma_trim_start_words(s);
    let t0 = trim_start(s);
    lemma_trim_end_words(t0);
    let t = trim_end(t0);
    lemma_collapse_words(t);
    assert(ws_tail(t) =~= Seq::<char>::empty());
    assert(join(words(t), seq![' ']) + ws_tail(t) =~= join(words(t), seq![' ']));
}

/// Normalizing whitespace twice gives what normalizing once gives.
pub proof fn lemma_normalize_idempotent(s: Seq<char>)
    ensures
        collapse(trim(collapse(trim(s)))) == collapse(trim(s)),
{
    let y = collapse(trim(s));
    lemma_normalized_is_joined_words(s);
    lemma_words_are_words(s);
    assert(is_ws(' '));
    assert(all_ws(seq![' ']));
    lemma_join_words(words(s), seq![' ']);
    lemma_normalized_is_joined_words(y);
}

} // verus!
