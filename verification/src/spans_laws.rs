//! The spans of a modified block keep their brackets balanced once written.
use vstd::prelude::*;

use crate::escape::{escape_content_spec, escaped_at};
use crate::escape_laws::{
    bracket_depth, closes_content_block, law_escaped_content_closes_block, lemma_concat_nonneg,
    lemma_no_brackets, lemma_push_char,
};
use crate::label::{is_label_only_spec, lemma_label_only_bracket_free};
use crate::model::{DiffSpan, SpanTag};
use crate::render::{
    bracket_step, call_guard, equal_step, equal_text_prefix, render_spans_spec,
    span_step, spans_bracket_scan, spans_render, stray_brackets_spec, stray_has,
    text_bracket_scan,
};

verus! {

/// Whether the position `x` (span, offset) comes before offset `k` of span `i`.
pub open spec fn pos_before(x: (usize, usize), i: int, k: int) -> bool {
    x.0 < i || (x.0 == i && x.1 < k)
}

/// Whether `x` holds the character `c` in the unchanged text of its span.
pub open spec fn bracket_at(spans: Seq<DiffSpan>, x: (usize, usize), c: char) -> bool {
    &&& x.0 < spans.len()
    &&& spans[x.0 as int].tag == SpanTag::Equal
    &&& x.1 < spans[x.0 as int].text@.len()
    &&& spans[x.0 as int].text@[x.1 as int] == c
}

/// A scan state at offset `k` of span `i`: the open `[` come in order, before
/// that point, and are `[` in unchanged text; the stray `]` come before it and
/// are `]` in unchanged text.
pub open spec fn scan_state_inv(
    spans: Seq<DiffSpan>,
    st: (Seq<(usize, usize)>, Seq<(usize, usize)>),
    i: int,
    k: int,
) -> bool {
    &&& forall|j: int|
        0 <= j < st.1.len() ==> pos_before(#[trigger] st.1[j], i, k) && bracket_at(
            spans,
            st.1[j],
            '[',
        )
    &&& forall|a: int, b: int|
        0 <= a < b < st.1.len() ==> pos_before(st.1[a], st.1[b].0 as int, st.1[b].1 as int)
    &&& forall|j: int|
        0 <= j < st.0.len() ==> pos_before(#[trigger] st.0[j], i, k) && bracket_at(
            spans,
            st.0[j],
            ']',
        )
}

/// How a later scan state `b` relates to an earlier one `a` taken at `p`:
/// every open `[` of `b` was open in `a` or comes at or after `p`, and the
/// stray list of `b` extends that of `a` with positions at or after `p`.
pub open spec fn scan_forward(
    a: (Seq<(usize, usize)>, Seq<(usize, usize)>),
    p: (int, int),
    b: (Seq<(usize, usize)>, Seq<(usize, usize)>),
) -> bool {
    &&& forall|j: int|
        0 <= j < b.1.len() ==> a.1.contains(#[trigger] b.1[j]) || !pos_before(b.1[j], p.0, p.1)
    &&& a.0.len() <= b.0.len()
    &&& b.0.take(a.0.len() as int) == a.0
    &&& forall|j: int| a.0.len() <= j < b.0.len() ==> !pos_before(#[trigger] b.0[j], p.0, p.1)
}

/// How many of the open `[` in `open` are not listed in `f`.
pub open spec fn live(open: Seq<(usize, usize)>, f: Seq<(usize, usize)>) -> nat
    decreases open.len(),
{
    if open.len() == 0 {
        0
    } else {
        live(open.drop_last(), f) + (if f.contains(open.last()) {
            0nat
        } else {
            1nat
        })
    }
}

/// The scan state after the first `k` characters of span `i`.
pub open spec fn scan_at(spans: Seq<DiffSpan>, i: int, k: int) -> (
    Seq<(usize, usize)>,
    Seq<(usize, usize)>,
) {
    text_bracket_scan(spans[i].text@, i, spans_bracket_scan(spans, i), k)
}

/// Positions fit in `usize`.
pub open spec fn positions_fit(spans: Seq<DiffSpan>) -> bool {
    &&& spans.len() <= usize::MAX
    &&& forall|i: int| 0 <= i < spans.len() ==> #[trigger] spans[i].text@.len() <= usize::MAX
}

proof fn lemma_text_inv(spans: Seq<DiffSpan>, i: int, st0: (Seq<(usize, usize)>, Seq<(usize, usize)>), k: int)
    requires
        positions_fit(spans),
        0 <= i < spans.len(),
        spans[i].tag == SpanTag::Equal,
        scan_state_inv(spans, st0, i, 0),
        0 <= k <= spans[i].text@.len(),
    ensures
        scan_state_inv(spans, text_bracket_scan(spans[i].text@, i, st0, k), i, k),
    decreases k,
{
    if k > 0 {
        let t = spans[i].text@;
        lemma_text_inv(spans, i, st0, k - 1);
        let p = text_bracket_scan(t, i, st0, k - 1);
        let q = bracket_step(t, i, p.0, p.1, k - 1);
        assert(text_bracket_scan(t, i, st0, k) == q);
        let e = (i as usize, (k - 1) as usize);
        assert(e.0 == i && e.1 == k - 1);
        let c = t[k - 1];
        if escaped_at(t, k - 1) || (c != '[' && c != ']') {
        } else if c == '[' {
            assert(q.1 == p.1.push(e));
            assert forall|j: int| 0 <= j < q.1.len() implies pos_before(#[trigger] q.1[j], i, k)
                && bracket_at(spans, q.1[j], '[') by {
                if j < p.1.len() {
                    assert(q.1[j] == p.1[j]);
                }
            }
            assert forall|a: int, b: int| 0 <= a < b < q.1.len() implies pos_before(
                q.1[a],
                q.1[b].0 as int,
                q.1[b].1 as int,
            ) by {
                assert(q.1[a] == p.1[a]);
                if b < p.1.len() {
                    assert(q.1[b] == p.1[b]);
                }
            }
        } else if p.1.len() > 0 {
            assert(q.1 == p.1.drop_last());
            assert forall|j: int| 0 <= j < q.1.len() implies pos_before(#[trigger] q.1[j], i, k)
                && bracket_at(spans, q.1[j], '[') by {
                assert(q.1[j] == p.1[j]);
            }
            assert forall|a: int, b: int| 0 <= a < b < q.1.len() implies pos_before(
                q.1[a],
                q.1[b].0 as int,
                q.1[b].1 as int,
            ) by {
                assert(q.1[a] == p.1[a]);
                assert(q.1[b] == p.1[b]);
            }
        } else {
            assert(q.0 == p.0.push(e));
            assert forall|j: int| 0 <= j < q.0.len() implies pos_before(#[trigger] q.0[j], i, k)
                && bracket_at(spans, q.0[j], ']') by {
                if j < p.0.len() {
                    assert(q.0[j] == p.0[j]);
                }
            }
        }
    }
}

proof fn lemma_spans_inv(spans: Seq<DiffSpan>, i: int)
    requires
        positions_fit(spans),
        0 <= i <= spans.len(),
    ensures
        scan_state_inv(spans, spans_bracket_scan(spans, i), i, 0),
    decreases i,
{
    if i > 0 {
        lemma_spans_inv(spans, i - 1);
        let p = spans_bracket_scan(spans, i - 1);
        if spans[i - 1].tag == SpanTag::Equal {
            let t = spans[i - 1].text@;
            lemma_text_inv(spans, i - 1, p, t.len() as int);
        }
    }
}

proof fn lemma_text_forward(
    spans: Seq<DiffSpan>,
    i: int,
    st0: (Seq<(usize, usize)>, Seq<(usize, usize)>),
    k0: int,
    k: int,
)
    requires
        positions_fit(spans),
        0 <= i < spans.len(),
        0 <= k0 <= k <= spans[i].text@.len(),
    ensures
        scan_forward(
            text_bracket_scan(spans[i].text@, i, st0, k0),
            (i, k0),
            text_bracket_scan(spans[i].text@, i, st0, k),
        ),
    decreases k,
{
    let t = spans[i].text@;
    let a = text_bracket_scan(t, i, st0, k0);
    if k == k0 {
        assert(a.0.take(a.0.len() as int) =~= a.0);
        assert forall|j: int| 0 <= j < a.1.len() implies a.1.contains(#[trigger] a.1[j]) by {}
    } else {
        lemma_text_forward(spans, i, st0, k0, k - 1);
        let p = text_bracket_scan(t, i, st0, k - 1);
        let q = bracket_step(t, i, p.0, p.1, k - 1);
        assert(text_bracket_scan(t, i, st0, k) == q);
        let e = (i as usize, (k - 1) as usize);
        assert(e.0 == i && e.1 == k - 1);
        let c = t[k - 1];
        if escaped_at(t, k - 1) || (c != '[' && c != ']') {
        } else if c == '[' {
            assert forall|j: int| 0 <= j < q.1.len() implies a.1.contains(#[trigger] q.1[j])
                || !pos_before(q.1[j], i, k0) by {
                if j < p.1.len() {
                    assert(q.1[j] == p.1[j]);
                }
            }
        } else if p.1.len() > 0 {
            assert forall|j: int| 0 <= j < q.1.len() implies a.1.contains(#[trigger] q.1[j])
                || !pos_before(q.1[j], i, k0) by {
                assert(q.1[j] == p.1[j]);
            }
        } else {
            assert(q.0 == p.0.push(e));
            assert(q.0.take(a.0.len() as int) =~= p.0.take(a.0.len() as int));
            assert forall|j: int| a.0.len() <= j < q.0.len() implies !pos_before(
                #[trigger] q.0[j],
                i,
                k0,
            ) by {
                if j < p.0.len() {
                    assert(q.0[j] == p.0[j]);
                }
            }
        }
    }
}

proof fn lemma_forward_trans(
    a: (Seq<(usize, usize)>, Seq<(usize, usize)>),
    p: (int, int),
    b: (Seq<(usize, usize)>, Seq<(usize, usize)>),
    q: (int, int),
    c: (Seq<(usize, usize)>, Seq<(usize, usize)>),
)
    requires
        scan_forward(a, p, b),
        scan_forward(b, q, c),
        p.0 < q.0 || (p.0 == q.0 && p.1 <= q.1),
    ensures
        scan_forward(a, p, c),
{
    assert forall|j: int| 0 <= j < c.1.len() implies a.1.contains(#[trigger] c.1[j])
        || !pos_before(c.1[j], p.0, p.1) by {
        if b.1.contains(c.1[j]) {
            let jj = choose|jj: int| 0 <= jj < b.1.len() && b.1[jj] == c.1[j];
            assert(a.1.contains(b.1[jj]) || !pos_before(b.1[jj], p.0, p.1));
        }
    }
    assert(c.0.take(a.0.len() as int) =~= c.0.take(b.0.len() as int).take(a.0.len() as int));
    assert forall|j: int| a.0.len() <= j < c.0.len() implies !pos_before(#[trigger] c.0[j], p.0, p.1) by {
        if j < b.0.len() {
            assert(c.0[j] == c.0.take(b.0.len() as int)[j]);
            assert(c.0[j] == b.0[j]);
        }
    }
}

proof fn lemma_spans_forward(spans: Seq<DiffSpan>, i0: int, i: int)
    requires
        positions_fit(spans),
        0 <= i0 <= i <= spans.len(),
    ensures
        scan_forward(spans_bracket_scan(spans, i0), (i0, 0), spans_bracket_scan(spans, i)),
    decreases i,
{
    let a = spans_bracket_scan(spans, i0);
    if i == i0 {
        assert(a.0.take(a.0.len() as int) =~= a.0);
        assert forall|j: int| 0 <= j < a.1.len() implies a.1.contains(#[trigger] a.1[j]) by {}
    } else {
        lemma_spans_forward(spans, i0, i - 1);
        let p = spans_bracket_scan(spans, i - 1);
        let q = spans_bracket_scan(spans, i);
        if spans[i - 1].tag == SpanTag::Equal {
            let t = spans[i - 1].text@;
            lemma_text_forward(spans, i - 1, p, 0, t.len() as int);
            assert(text_bracket_scan(t, i - 1, p, 0) == p);
            lemma_forward_trans(a, (i0, 0), p, (i - 1, 0), q);
        } else {
            assert(q == p);
        }
    }
}

/// From offset `k0` of unchanged span `i0` to the end of the scan.
proof fn lemma_point_forward(spans: Seq<DiffSpan>, i0: int, k0: int)
    requires
        positions_fit(spans),
        0 <= i0 < spans.len(),
        spans[i0].tag == SpanTag::Equal,
        0 <= k0 <= spans[i0].text@.len(),
    ensures
        scan_forward(scan_at(spans, i0, k0), (i0, k0), spans_bracket_scan(spans, spans.len() as int)),
{
    let t = spans[i0].text@;
    let s0 = spans_bracket_scan(spans, i0);
    lemma_text_forward(spans, i0, s0, k0, t.len() as int);
    let mid = text_bracket_scan(t, i0, s0, t.len() as int);
    assert(spans_bracket_scan(spans, i0 + 1) == mid);
    lemma_spans_forward(spans, i0 + 1, spans.len() as int);
    lemma_forward_trans(
        scan_at(spans, i0, k0),
        (i0, k0),
        mid,
        (i0 + 1, 0),
        spans_bracket_scan(spans, spans.len() as int),
    );
}

proof fn lemma_live_all_listed(open: Seq<(usize, usize)>, f: Seq<(usize, usize)>)
    requires
        forall|j: int| 0 <= j < open.len() ==> f.contains(#[trigger] open[j]),
    ensures
        live(open, f) == 0,
    decreases open.len(),
{
    if open.len() > 0 {
        assert(f.contains(open[open.len() - 1]));
        lemma_live_all_listed(open.drop_last(), f);
    }
}

/// What the scan did at offset `k` of unchanged span `i` decides how the
/// bracket there is written: `sf` lists it exactly when it was left over or stray.
proof fn lemma_listing(spans: Seq<DiffSpan>, i: int, k: int)
    requires
        positions_fit(spans),
        0 <= i < spans.len(),
        spans[i].tag == SpanTag::Equal,
        0 <= k < spans[i].text@.len(),
        !escaped_at(spans[i].text@, k),
        spans[i].text@[k] == '[' || spans[i].text@[k] == ']',
    ensures
        ({
            let t = spans[i].text@;
            let fin = spans_bracket_scan(spans, spans.len() as int);
            let f = fin.1;
            let sf = stray_brackets_spec(spans);
            let st = scan_at(spans, i, k);
            let e = (i as usize, k as usize);
            &&& t[k] == '[' ==> (stray_has(sf, i, k) <==> f.contains(e))
            &&& t[k] == ']' && st.1.len() > 0 ==> !stray_has(sf, i, k) && !f.contains(
                st.1.last(),
            )
            &&& t[k] == ']' && st.1.len() == 0 ==> stray_has(sf, i, k)
        }),
{
    let t = spans[i].text@;
    let n = spans.len() as int;
    let fin = spans_bracket_scan(spans, n);
    let f = fin.1;
    let sf = stray_brackets_spec(spans);
    let st = scan_at(spans, i, k);
    let st1 = scan_at(spans, i, k + 1);
    let e = (i as usize, k as usize);
    assert(e.0 == i && e.1 == k);
    lemma_spans_inv(spans, i);
    lemma_spans_inv(spans, n);
    lemma_text_inv(spans, i, spans_bracket_scan(spans, i), k);
    lemma_point_forward(spans, i, k + 1);
    assert(st1 == bracket_step(t, i, st.0, st.1, k));
    assert(sf == fin.0 + f);
    if t[k] == '[' {
        // Listed entries of the stray part are `]`, so only `f` can list `e`.
        if stray_has(sf, i, k) {
            let j = choose|j: int| 0 <= j < sf.len() && sf[j].0 == i && sf[j].1 == k;
            if j < fin.0.len() {
                assert(sf[j] == fin.0[j]);
                assert(bracket_at(spans, fin.0[j], ']'));
            } else {
                assert(sf[j] == f[j - fin.0.len()]);
                assert(f[j - fin.0.len()] == e);
            }
        }
        if f.contains(e) {
            let j = choose|j: int| 0 <= j < f.len() && f[j] == e;
            assert(sf[fin.0.len() + j] == f[j]);
        }
    } else if st.1.len() > 0 {
        let last = st.1.last();
        assert(st1.1 == st.1.drop_last());
        assert(st1.0 == st.0);
        // The `]` at `e` is neither a listed stray nor a left-over `[`.
        if stray_has(sf, i, k) {
            let j = choose|j: int| 0 <= j < sf.len() && sf[j].0 == i && sf[j].1 == k;
            if j < fin.0.len() {
                assert(sf[j] == fin.0[j]);
                if j < st1.0.len() {
                    assert(fin.0[j] == fin.0.take(st1.0.len() as int)[j]);
                    assert(fin.0[j] == st1.0[j]);
                    assert(pos_before(st.0[j], i, k));
                } else {
                    assert(!pos_before(fin.0[j], i, k + 1));
                }
            } else {
                assert(sf[j] == f[j - fin.0.len()]);
                assert(bracket_at(spans, f[j - fin.0.len()], '['));
            }
        }
        // The `[` it closes was popped, so it cannot be left over.
        if f.contains(last) {
            let j = choose|j: int| 0 <= j < f.len() && f[j] == last;
            assert(st1.1.contains(f[j]) || !pos_before(f[j], i, k + 1));
            assert(pos_before(st.1[st.1.len() - 1], i, k));
            if st1.1.contains(f[j]) {
                let jj = choose|jj: int| 0 <= jj < st1.1.len() && st1.1[jj] == f[j];
                assert(st1.1[jj] == st.1[jj]);
                assert(pos_before(st.1[jj], last.0 as int, last.1 as int));
            }
        }
    } else {
        assert(st1.0 == st.0.push(e));
        let j = st.0.len() as int;
        assert(fin.0[j] == fin.0.take(st1.0.len() as int)[j]);
        assert(fin.0[j] == e);
        assert(sf[j] == fin.0[j]);
    }
}

/// Writing unchanged span `i` after `base`: the written text follows the
/// scan, its depth counting the open `[` that are not left over.
proof fn lemma_equal_piece(spans: Seq<DiffSpan>, i: int, base: Seq<char>, k: int)
    requires
        positions_fit(spans),
        0 <= i < spans.len(),
        spans[i].tag == SpanTag::Equal,
        0 <= k <= spans[i].text@.len(),
        !escaped_at(base, base.len() as int),
        forall|m: int| 0 <= m <= base.len() ==> bracket_depth(base, m) >= 0,
        bracket_depth(base, base.len() as int) == live(
            spans_bracket_scan(spans, i).1,
            spans_bracket_scan(spans, spans.len() as int).1,
        ),
    ensures
        ({
            let t = spans[i].text@;
            let b = base + equal_text_prefix(t, i, stray_brackets_spec(spans), k);
            &&& forall|m: int| 0 <= m <= b.len() ==> bracket_depth(b, m) >= 0
            &&& bracket_depth(b, b.len() as int) == live(
                scan_at(spans, i, k).1,
                spans_bracket_scan(spans, spans.len() as int).1,
            )
            &&& escaped_at(b, b.len() as int) == escaped_at(t, k)
        }),
    decreases k,
{
    let t = spans[i].text@;
    let sf = stray_brackets_spec(spans);
    let f = spans_bracket_scan(spans, spans.len() as int).1;
    if k == 0 {
        assert(base + equal_text_prefix(t, i, sf, 0) =~= base);
        assert(scan_at(spans, i, 0) == spans_bracket_scan(spans, i));
    } else {
        let kk = k - 1;
        lemma_equal_piece(spans, i, base, kk);
        let w = equal_text_prefix(t, i, sf, kk);
        let b = base + w;
        let w2 = equal_step(t, i, sf, w, kk);
        assert(equal_text_prefix(t, i, sf, k) == w2);
        let st = scan_at(spans, i, kk);
        let st1 = scan_at(spans, i, k);
        assert(st1 == bracket_step(t, i, st.0, st.1, kk));
        let c = t[kk];
        let len = b.len() as int;
        let b2 = base + w2;
        let e = (i as usize, kk as usize);
        if escaped_at(t, kk) || c == '\\' {
            assert(b2 =~= b.push(c));
            lemma_push_char(b, c);
            assert(st1 == st);
            assert forall|m: int| 0 <= m <= b2.len() implies bracket_depth(b2, m) >= 0 by {
                if m <= len {
                    assert(bracket_depth(b2, m) == bracket_depth(b, m));
                }
            }
        } else if (c == '[' || c == ']') && stray_has(sf, i, kk) {
            let b1 = b.push('\\');
            assert(b2 =~= b1.push(c));
            lemma_push_char(b, '\\');
            lemma_push_char(b1, c);
            lemma_listing(spans, i, kk);
            assert forall|m: int| 0 <= m <= b2.len() implies bracket_depth(b2, m) >= 0 by {
                if m <= len {
                    assert(bracket_depth(b1, m) == bracket_depth(b, m));
                    assert(bracket_depth(b2, m) == bracket_depth(b1, m));
                } else if m == len + 1 {
                    assert(bracket_depth(b2, m) == bracket_depth(b1, m));
                }
            }
            if c == '[' {
                assert(st1.1 == st.1.push(e));
                assert(st1.1.drop_last() == st.1);
                assert(st1.1.last() == e);
                assert(live(st1.1, f) == live(st.1, f));
            } else {
                assert(st.1.len() == 0);
                assert(st1.1 == st.1);
            }
        } else {
            assert(b2 =~= b.push(c));
            lemma_push_char(b, c);
            if c == '[' {
                lemma_listing(spans, i, kk);
                assert(st1.1 == st.1.push(e));
                assert(st1.1.drop_last() == st.1);
                assert(st1.1.last() == e);
                assert(live(st1.1, f) == live(st.1, f) + 1);
            } else if c == ']' {
                lemma_listing(spans, i, kk);
                assert(st.1.len() > 0);
                assert(st1.1 == st.1.drop_last());
                assert(live(st.1, f) == live(st1.1, f) + 1);
            } else {
                assert(st1 == st);
            }
            assert forall|m: int| 0 <= m <= b2.len() implies bracket_depth(b2, m) >= 0 by {
                if m <= len {
                    assert(bracket_depth(b2, m) == bracket_depth(b, m));
                }
            }
        }
    }
}

/// `#diff-added[` and `#diff-deleted[`: one unescaped `[` at the end, nothing else.
proof fn lemma_call_opener(lit: Seq<char>)
    requires
        lit.len() > 0,
        lit.last() == '[',
        forall|k: int| 0 <= k < lit.len() - 1 ==> lit[k] != '\\' && lit[k] != '[' && lit[k] != ']',
    ensures
        forall|m: int| 0 <= m <= lit.len() ==> bracket_depth(lit, m) >= 0,
        bracket_depth(lit, lit.len() as int) == 1,
        !escaped_at(lit, lit.len() as int),
{
    let d = lit.drop_last();
    assert(d.push('[') == lit);
    assert forall|m: int| 0 <= m <= d.len() implies bracket_depth(d, m) == 0 && !escaped_at(d, m) by {
        lemma_no_brackets(d, m);
    }
    lemma_push_char(d, '[');
    assert forall|m: int| 0 <= m <= lit.len() implies bracket_depth(lit, m) >= 0 by {
        if m <= d.len() {
            assert(bracket_depth(lit, m) == bracket_depth(d, m));
        }
    }
}

/// A diff call written after text that is balanced so far keeps it so.
proof fn lemma_diff_call(out: Seq<char>, lit: Seq<char>, body: Seq<char>)
    requires
        !escaped_at(out, out.len() as int),
        forall|m: int| 0 <= m <= out.len() ==> bracket_depth(out, m) >= 0,
        lit.len() > 0,
        lit.last() == '[',
        forall|k: int| 0 <= k < lit.len() - 1 ==> lit[k] != '\\' && lit[k] != '[' && lit[k] != ']',
        closes_content_block(body),
    ensures
        ({
            let r = out + lit + body + seq![']'];
            &&& forall|m: int| 0 <= m <= r.len() ==> bracket_depth(r, m) >= 0
            &&& bracket_depth(r, r.len() as int) == bracket_depth(out, out.len() as int)
            &&& !escaped_at(r, r.len() as int)
        }),
{
    lemma_call_opener(lit);
    lemma_concat_nonneg(out, lit);
    let a1 = out + lit;
    lemma_concat_nonneg(a1, body);
    let a2 = a1 + body;
    let close = seq![']'];
    lemma_push_char(Seq::<char>::empty(), ']');
    assert(Seq::<char>::empty().push(']') == close);
    assert(bracket_depth(close, 0) == 0);
    lemma_concat_nonneg(a2, close);
}

/// The spans written so far keep their brackets balanced up to the `[` of
/// unchanged text that a later `]` will close.
proof fn lemma_spans_out(spans: Seq<DiffSpan>, i: int)
    requires
        positions_fit(spans),
        0 <= i <= spans.len(),
        forall|j: int|
            0 <= j < spans.len() && spans[j].tag == SpanTag::Equal ==> !escaped_at(
                #[trigger] spans[j].text@,
                spans[j].text@.len() as int,
            ),
    ensures
        ({
            let o = spans_render(spans, stray_brackets_spec(spans), i).0;
            &&& !escaped_at(o, o.len() as int)
            &&& forall|m: int| 0 <= m <= o.len() ==> bracket_depth(o, m) >= 0
            &&& bracket_depth(o, o.len() as int) == live(
                spans_bracket_scan(spans, i).1,
                spans_bracket_scan(spans, spans.len() as int).1,
            )
        }),
    decreases i,
{
    let sf = stray_brackets_spec(spans);
    let f = spans_bracket_scan(spans, spans.len() as int).1;
    if i == 0 {
        let o = spans_render(spans, sf, 0).0;
        assert(o =~= Seq::<char>::empty());
    } else {
        let j = i - 1;
        lemma_spans_out(spans, j);
        let st = spans_render(spans, sf, j);
        let o = st.0;
        let t = spans[j].text@;
        let st2 = span_step(spans, sf, st, j);
        assert(spans_render(spans, sf, i) == st2);
        let p = spans_bracket_scan(spans, j);
        if t.len() == 0 {
            if spans[j].tag == SpanTag::Equal {
                assert(spans_bracket_scan(spans, i) == text_bracket_scan(t, j, p, 0));
            }
        } else {
            match spans[j].tag {
                SpanTag::Equal => {
                    let g = call_guard(st.1, t);
                    let base = o + g;
                    if g.len() > 0 {
                        assert(g == seq!['\u{200B}']);
                        assert(base == o.push('\u{200B}'));
                        lemma_push_char(o, '\u{200B}');
                        assert forall|m: int| 0 <= m <= base.len() implies bracket_depth(base, m)
                            >= 0 by {
                            if m <= o.len() {
                                assert(bracket_depth(base, m) == bracket_depth(o, m));
                            }
                        }
                    } else {
                        assert(base =~= o);
                    }
                    lemma_equal_piece(spans, j, base, t.len() as int);
                    assert(st2.0 =~= base + equal_text_prefix(t, j, sf, t.len() as int));
                    assert(spans_bracket_scan(spans, i) == scan_at(spans, j, t.len() as int));
                },
                SpanTag::Deleted => {
                    if !is_label_only_spec(t) {
                        reveal_strlit("#diff-deleted[");
                        let lit = "#diff-deleted["@;
                        law_escaped_content_closes_block(t, true);
                        lemma_diff_call(o, lit, escape_content_spec(t, true));
                    }
                },
                SpanTag::Inserted => {
                    if is_label_only_spec(t) {
                        lemma_label_only_bracket_free(t);
                        assert forall|m: int| 0 <= m <= t.len() implies bracket_depth(t, m) == 0 by {
                            lemma_no_brackets(t, m);
                        }
                        lemma_no_brackets(t, t.len() as int);
                        lemma_concat_nonneg(o, t);
                    } else {
                        reveal_strlit("#diff-added[");
                        let lit = "#diff-added["@;
                        law_escaped_content_closes_block(t, false);
                        lemma_diff_call(o, lit, escape_content_spec(t, false));
                    }
                },
            }
        }
    }
}

/// The spans of a modified block, once written, keep their brackets balanced
/// and do not end in an escape: brackets of unchanged text that nothing pairs
/// with are escaped, and every diff call is closed. This holds when no
/// unchanged span ends inside an escape sequence.
pub proof fn law_modified_spans_balanced(spans: Seq<DiffSpan>)
    requires
        positions_fit(spans),
        forall|j: int|
            0 <= j < spans.len() && spans[j].tag == SpanTag::Equal ==> !escaped_at(
                #[trigger] spans[j].text@,
                spans[j].text@.len() as int,
            ),
    ensures
        closes_content_block(render_spans_spec(spans)),
{
    let n = spans.len() as int;
    lemma_spans_out(spans, n);
    let f = spans_bracket_scan(spans, n).1;
    assert forall|j: int| 0 <= j < f.len() implies f.contains(#[trigger] f[j]) by {}
    lemma_live_all_listed(f, f);
}

} // verus!
