//! Which brackets of unchanged text a modified block escapes, stated over
//! the unchanged text of the block read as one text.
use vstd::prelude::*;

use crate::backslash_laws::{
    backslashed, gains_backslash, lemma_open_indices, open_at, open_depth, open_indices,
    unclosed_open, unescaped_char,
};
use crate::escape::escaped_at;
use crate::model::{DiffSpan, SpanTag};
use crate::render::{
    bracket_step, equal_step, equal_text_prefix, equal_text_spec, spans_bracket_scan,
    stray_brackets_spec, stray_has, text_bracket_scan,
};
use crate::spans_laws::positions_fit;

verus! {

/// Whether `t[k]` is a bracket that no backslash escapes.
pub open spec fn live_bracket(t: Seq<char>, k: int) -> bool {
    !escaped_at(t, k) && (t[k] == '[' || t[k] == ']')
}

/// `t` with each character that is not a live bracket replaced by a space.
pub open spec fn bracket_skeleton(t: Seq<char>) -> Seq<char> {
    Seq::new(t.len(), |k: int| if live_bracket(t, k) { t[k] } else { ' ' })
}

/// The skeletons of the unchanged spans among the first `m`, one after another.
pub open spec fn equal_skeleton(spans: Seq<DiffSpan>, m: int) -> Seq<char>
    decreases m,
{
    if m <= 0 {
        seq![]
    } else {
        equal_skeleton(spans, m - 1) + if spans[m - 1].tag == SpanTag::Equal {
            bracket_skeleton(spans[m - 1].text@)
        } else {
            seq![]
        }
    }
}

/// Whether a modified block escapes `spans[i].text[k]`: a live bracket of
/// unchanged text that, with all the unchanged text of the block read as one
/// text, gains a backslash there (a `]` with no `[` open before it, or a `[`
/// that nothing after it closes).
pub open spec fn stray_bracket(spans: Seq<DiffSpan>, i: int, k: int) -> bool {
    &&& 0 <= i < spans.len()
    &&& spans[i].tag == SpanTag::Equal
    &&& 0 <= k < spans[i].text@.len()
    &&& live_bracket(spans[i].text@, k)
    &&& gains_backslash(
        equal_skeleton(spans, spans.len() as int),
        false,
        false,
        equal_skeleton(spans, i).len() + k,
    )
}

/// The first `n` characters of the text of span `i`, each after a backslash
/// where it is a stray bracket.
pub open spec fn stray_escaped_prefix(spans: Seq<DiffSpan>, i: int, n: int) -> Seq<char>
    decreases n,
{
    if n <= 0 {
        seq![]
    } else {
        stray_escaped_prefix(spans, i, n - 1) + backslashed(
            spans[i].text@[n - 1],
            stray_bracket(spans, i, n - 1),
        )
    }
}

/// The indices of `s[..n]` of unescaped `]` with no `[` open before them, in order.
spec fn stray_closes(s: Seq<char>, n: int) -> Seq<int>
    decreases n,
{
    if n <= 0 {
        seq![]
    } else {
        let c = stray_closes(s, n - 1);
        if unescaped_char(s, n - 1) && s[n - 1] == ']' && open_depth(s, n - 1) == 0 {
            c.push(n - 1)
        } else {
            c
        }
    }
}

/// Where the unchanged text of span `i` starts in the skeleton.
spec fn offset(spans: Seq<DiffSpan>, i: int) -> int {
    equal_skeleton(spans, i).len() as int
}

/// Whether the position `x` (span, offset) is index `j` of the skeleton.
spec fn names(spans: Seq<DiffSpan>, x: (usize, usize), j: int) -> bool {
    &&& (x.0 as int) < spans.len()
    &&& spans[x.0 as int].tag == SpanTag::Equal
    &&& (x.1 as int) < spans[x.0 as int].text@.len()
    &&& offset(spans, x.0 as int) + x.1 == j
}

/// Whether the positions `xs` are, one for one, the skeleton indices `js`.
spec fn lists(spans: Seq<DiffSpan>, xs: Seq<(usize, usize)>, js: Seq<int>) -> bool {
    &&& xs.len() == js.len()
    &&& forall|q: int| 0 <= q < xs.len() ==> names(spans, #[trigger] xs[q], js[q])
}

/// The skeleton grows with the spans, and holds the skeleton of each
/// unchanged span at its offset.
proof fn lemma_skeleton_grows(spans: Seq<DiffSpan>, i: int, m: int)
    requires
        0 <= i <= m <= spans.len(),
    ensures
        offset(spans, i) <= offset(spans, m),
        i < m && spans[i].tag == SpanTag::Equal ==> offset(spans, i) + spans[i].text@.len()
            <= offset(spans, m),
        i < m && spans[i].tag == SpanTag::Equal ==> forall|k: int|
            0 <= k < spans[i].text@.len() ==> #[trigger] equal_skeleton(spans, m)[offset(spans, i)
                + k] == bracket_skeleton(spans[i].text@)[k],
    decreases m,
{
    if i < m {
        lemma_skeleton_grows(spans, i, m - 1);
        let a = equal_skeleton(spans, m - 1);
        assert forall|k: int|
            i < m - 1 && spans[i].tag == SpanTag::Equal && 0 <= k < spans[i].text@.len() implies #[trigger] equal_skeleton(
            spans,
            m,
        )[offset(spans, i) + k] == a[offset(spans, i) + k] by {}
    }
}

/// The skeleton holds only brackets and spaces.
proof fn lemma_skeleton_chars(spans: Seq<DiffSpan>, m: int)
    requires
        0 <= m <= spans.len(),
    ensures
        forall|j: int|
            0 <= j < equal_skeleton(spans, m).len() ==> {
                let c = #[trigger] equal_skeleton(spans, m)[j];
                c == '[' || c == ']' || c == ' '
            },
    decreases m,
{
    if m > 0 {
        lemma_skeleton_chars(spans, m - 1);
        let a = equal_skeleton(spans, m - 1);
        let sk = equal_skeleton(spans, m);
        assert forall|j: int| 0 <= j < sk.len() implies {
            let c = #[trigger] sk[j];
            c == '[' || c == ']' || c == ' '
        } by {
            if j < a.len() {
                assert(sk[j] == a[j]);
            } else {
                let t = spans[m - 1].text@;
                assert(sk[j] == bracket_skeleton(t)[j - a.len()]);
            }
        }
    }
}

/// No character of a text without backslashes is escaped.
proof fn lemma_unescaped(s: Seq<char>, j: int)
    requires
        0 <= j < s.len(),
        forall|q: int| 0 <= q < s.len() ==> s[q] != '\\',
    ensures
        unescaped_char(s, j),
{
    if j > 0 {
        assert(s[j - 1] != '\\');
    }
}

/// An index is listed among the stray `]` exactly when it is one.
proof fn lemma_stray_closes(s: Seq<char>, n: int, j: int)
    requires
        0 <= n,
    ensures
        stray_closes(s, n).contains(j) <==> (0 <= j < n && unescaped_char(s, j) && s[j] == ']'
            && open_depth(s, j) == 0),
    decreases n,
{
    if n > 0 {
        lemma_stray_closes(s, n - 1, j);
        let c = stray_closes(s, n - 1);
        if unescaped_char(s, n - 1) && s[n - 1] == ']' && open_depth(s, n - 1) == 0 {
            let c2 = c.push(n - 1);
            if c.contains(j) {
                let q = choose|q: int| 0 <= q < c.len() && c[q] == j;
                assert(c2[q] == j);
            }
            if j == n - 1 {
                assert(c2[c.len() as int] == j);
            }
            if c2.contains(j) && j != n - 1 {
                let q = choose|q: int| 0 <= q < c2.len() && c2[q] == j;
                assert(c[q] == j);
            }
        }
    }
}

/// Two positions in unchanged text at the same skeleton index are one.
proof fn lemma_offset_unique(spans: Seq<DiffSpan>, a: int, b: int, a2: int, b2: int)
    requires
        0 <= a < spans.len(),
        0 <= a2 < spans.len(),
        spans[a].tag == SpanTag::Equal,
        spans[a2].tag == SpanTag::Equal,
        0 <= b < spans[a].text@.len(),
        0 <= b2 < spans[a2].text@.len(),
        offset(spans, a) + b == offset(spans, a2) + b2,
    ensures
        a == a2 && b == b2,
{
    if a < a2 {
        lemma_skeleton_grows(spans, a, a2);
    } else if a2 < a {
        lemma_skeleton_grows(spans, a2, a);
    }
}

/// The bracket scan of the unchanged text of span `i`, `k` characters in,
/// lists the positions of the stray `]` and of the open `[` of the skeleton.
proof fn lemma_text_scan(spans: Seq<DiffSpan>, i: int, k: int)
    requires
        positions_fit(spans),
        0 <= i < spans.len(),
        spans[i].tag == SpanTag::Equal,
        0 <= k <= spans[i].text@.len(),
        lists(
            spans,
            spans_bracket_scan(spans, i).1,
            open_indices(equal_skeleton(spans, spans.len() as int), offset(spans, i)),
        ),
        lists(
            spans,
            spans_bracket_scan(spans, i).0,
            stray_closes(equal_skeleton(spans, spans.len() as int), offset(spans, i)),
        ),
    ensures
        ({
            let s = equal_skeleton(spans, spans.len() as int);
            let p = text_bracket_scan(spans[i].text@, i, spans_bracket_scan(spans, i), k);
            &&& lists(spans, p.1, open_indices(s, offset(spans, i) + k))
            &&& lists(spans, p.0, stray_closes(s, offset(spans, i) + k))
        }),
    decreases k,
{
    if k > 0 {
        let s = equal_skeleton(spans, spans.len() as int);
        let t = spans[i].text@;
        let n = spans.len() as int;
        lemma_text_scan(spans, i, k - 1);
        let p = text_bracket_scan(t, i, spans_bracket_scan(spans, i), k - 1);
        let jj = offset(spans, i) + k - 1;
        lemma_skeleton_grows(spans, i, n);
        lemma_skeleton_chars(spans, n);
        assert(s[jj] == bracket_skeleton(t)[k - 1]);
        assert forall|q: int| 0 <= q < s.len() implies s[q] != '\\' by {
            let c = s[q];
            assert(c == '[' || c == ']' || c == ' ');
        }
        lemma_unescaped(s, jj);
        lemma_open_indices(s, jj);
        let o = open_indices(s, jj);
        let c = stray_closes(s, jj);
        let p2 = bracket_step(t, i, p.0, p.1, k - 1);
        assert(text_bracket_scan(t, i, spans_bracket_scan(spans, i), k) == p2);
        let x = (i as usize, (k - 1) as usize);
        assert(spans[i].text@.len() <= usize::MAX);
        assert(names(spans, x, jj));
        if live_bracket(t, k - 1) && t[k - 1] == '[' {
            assert(open_indices(s, jj + 1) == o.push(jj));
            assert(stray_closes(s, jj + 1) == c);
            assert(p2.1 == p.1.push(x));
            assert forall|q: int| 0 <= q < p2.1.len() implies names(
                spans,
                #[trigger] p2.1[q],
                o.push(jj)[q],
            ) by {
                if q < p.1.len() {
                    assert(names(spans, p.1[q], o[q]));
                }
            }
        } else if live_bracket(t, k - 1) && o.len() > 0 {
            assert(open_indices(s, jj + 1) == o.drop_last());
            assert(stray_closes(s, jj + 1) == c);
            assert(p2.1 == p.1.drop_last());
            assert forall|q: int| 0 <= q < p2.1.len() implies names(
                spans,
                #[trigger] p2.1[q],
                o.drop_last()[q],
            ) by {
                assert(names(spans, p.1[q], o[q]));
            }
        } else if live_bracket(t, k - 1) {
            assert(open_depth(s, jj) == 0);
            assert(open_indices(s, jj + 1) == o);
            assert(stray_closes(s, jj + 1) == c.push(jj));
            assert(p2.0 == p.0.push(x));
            assert forall|q: int| 0 <= q < p2.0.len() implies names(
                spans,
                #[trigger] p2.0[q],
                c.push(jj)[q],
            ) by {
                if q < p.0.len() {
                    assert(names(spans, p.0[q], c[q]));
                }
            }
        } else {
            assert(s[jj] == ' ');
            assert(open_indices(s, jj + 1) == o);
            assert(stray_closes(s, jj + 1) == c);
            assert(p2 == p);
        }
    }
}

/// The bracket scan over the unchanged text of the first `m` spans lists the
/// positions of the stray `]` and of the open `[` of the skeleton.
proof fn lemma_spans_scan(spans: Seq<DiffSpan>, m: int)
    requires
        positions_fit(spans),
        0 <= m <= spans.len(),
    ensures
        ({
            let s = equal_skeleton(spans, spans.len() as int);
            let p = spans_bracket_scan(spans, m);
            &&& lists(spans, p.1, open_indices(s, offset(spans, m)))
            &&& lists(spans, p.0, stray_closes(s, offset(spans, m)))
        }),
    decreases m,
{
    if m > 0 {
        let i = m - 1;
        lemma_spans_scan(spans, i);
        if spans[i].tag == SpanTag::Equal {
            lemma_text_scan(spans, i, spans[i].text@.len() as int);
            assert(offset(spans, m) == offset(spans, i) + spans[i].text@.len());
        } else {
            assert(offset(spans, m) == offset(spans, i));
        }
    }
}

/// A live bracket of unchanged text is listed among the stray brackets
/// exactly when it gains a backslash in the skeleton.
proof fn lemma_stray_listed(spans: Seq<DiffSpan>, i: int, k: int)
    requires
        positions_fit(spans),
        0 <= i < spans.len(),
        spans[i].tag == SpanTag::Equal,
        0 <= k < spans[i].text@.len(),
        live_bracket(spans[i].text@, k),
    ensures
        stray_has(stray_brackets_spec(spans), i, k) <==> stray_bracket(spans, i, k),
{
    let n = spans.len() as int;
    let s = equal_skeleton(spans, n);
    let jj = offset(spans, i) + k;
    let p = spans_bracket_scan(spans, n);
    let st = stray_brackets_spec(spans);
    lemma_spans_scan(spans, n);
    lemma_skeleton_grows(spans, i, n);
    lemma_skeleton_chars(spans, n);
    assert(offset(spans, n) == s.len());
    assert forall|q: int| 0 <= q < s.len() implies s[q] != '\\' by {
        let c = s[q];
        assert(c == '[' || c == ']' || c == ' ');
    }
    lemma_unescaped(s, jj);
    lemma_open_indices(s, s.len() as int);
    lemma_stray_closes(s, s.len() as int, jj);
    let o = open_indices(s, s.len() as int);
    let c = stray_closes(s, s.len() as int);
    assert(s[jj] == spans[i].text@[k]);
    if stray_bracket(spans, i, k) {
        if unclosed_open(s, jj) {
            assert(open_at(s, jj, s.len() as int));
            assert(o.contains(jj));
            let q = choose|q: int| 0 <= q < o.len() && o[q] == jj;
            assert(names(spans, p.1[q], o[q]));
            lemma_offset_unique(spans, i, k, p.1[q].0 as int, p.1[q].1 as int);
            assert(st[p.0.len() + q] == p.1[q]);
        } else {
            assert(c.contains(jj));
            let q = choose|q: int| 0 <= q < c.len() && c[q] == jj;
            assert(names(spans, p.0[q], c[q]));
            lemma_offset_unique(spans, i, k, p.0[q].0 as int, p.0[q].1 as int);
            assert(st[q] == p.0[q]);
        }
    }
    if stray_has(st, i, k) {
        let q = choose|q: int| 0 <= q < st.len() && st[q].0 == i && st[q].1 == k;
        if q < p.0.len() {
            assert(st[q] == p.0[q]);
            assert(names(spans, p.0[q], c[q]));
            lemma_offset_unique(spans, i, k, p.0[q].0 as int, p.0[q].1 as int);
            assert(c.contains(jj));
        } else {
            let q2 = q - p.0.len();
            assert(st[q] == p.1[q2]);
            assert(names(spans, p.1[q2], o[q2]));
            lemma_offset_unique(spans, i, k, p.1[q2].0 as int, p.1[q2].1 as int);
            assert(open_at(s, o[q2], s.len() as int));
        }
    }
}

/// A modified block writes the unchanged text of span `i` with a backslash
/// before exactly its stray brackets: reading all unchanged text of the block
/// as one text, each `]` with no `[` open before it and each `[` that nothing
/// after it closes. Escape sequences already in the text are kept whole.
pub proof fn law_unchanged_text_backslashes(spans: Seq<DiffSpan>, i: int)
    requires
        positions_fit(spans),
        0 <= i < spans.len(),
        spans[i].tag == SpanTag::Equal,
    ensures
        equal_text_spec(spans[i].text@, i, stray_brackets_spec(spans)) == stray_escaped_prefix(
            spans,
            i,
            spans[i].text@.len() as int,
        ),
{
    lemma_unchanged_prefix(spans, i, spans[i].text@.len() as int);
}

proof fn lemma_unchanged_prefix(spans: Seq<DiffSpan>, i: int, n: int)
    requires
        positions_fit(spans),
        0 <= i < spans.len(),
        spans[i].tag == SpanTag::Equal,
        0 <= n <= spans[i].text@.len(),
    ensures
        equal_text_prefix(spans[i].text@, i, stray_brackets_spec(spans), n)
            == stray_escaped_prefix(spans, i, n),
    decreases n,
{
    if n > 0 {
        let t = spans[i].text@;
        let st = stray_brackets_spec(spans);
        let k = n - 1;
        lemma_unchanged_prefix(spans, i, k);
        let res = equal_text_prefix(t, i, st, k);
        assert(equal_text_prefix(t, i, st, n) == equal_step(t, i, st, res, k));
        if live_bracket(t, k) {
            lemma_stray_listed(spans, i, k);
        }
        if stray_bracket(spans, i, k) {
            assert(res.push('\\').push(t[k]) =~= res + seq!['\\', t[k]]);
        } else {
            assert(res.push(t[k]) =~= res + seq![t[k]]);
        }
    }
}

} // verus!
