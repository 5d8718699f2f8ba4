//! What escaping guarantees about the text it produces.
use vstd::prelude::*;

use crate::escape::{
    added_call_probe, close_trailing_escape, escape_content_spec, escape_markup_spec, escaped_at,
    insert_backslashes, markup_scan, markup_step, trailing_backslashes, typst_markup_erroneous,
    word_adjacent,
};
use crate::text::alphanumeric;

verus! {

/// How the character at `k` moves the bracket depth: `[` opens, `]` closes,
/// unless a backslash escapes it.
pub open spec fn bracket_delta(t: Seq<char>, k: int) -> int {
    if escaped_at(t, k) {
        0
    } else if t[k] == '[' {
        1
    } else if t[k] == ']' {
        -1
    } else {
        0
    }
}

/// The depth of unescaped brackets after the first `m` characters of `t`.
pub open spec fn bracket_depth(t: Seq<char>, m: int) -> int
    decreases m,
{
    if m <= 0 {
        0
    } else {
        bracket_depth(t, m - 1) + bracket_delta(t, m - 1)
    }
}

/// `t` can stand between the `[` and `]` of a content block without closing
/// it early or leaving it open: its unescaped brackets balance, and it does
/// not end in a backslash that would escape the closing `]`.
pub open spec fn closes_content_block(t: Seq<char>) -> bool {
    &&& forall|m: int| 0 <= m <= t.len() ==> bracket_depth(t, m) >= 0
    &&& bracket_depth(t, t.len() as int) == 0
    &&& !escaped_at(t, t.len() as int)
}

/// Every `@` in `t` is escaped by a backslash.
pub open spec fn at_signs_escaped(t: Seq<char>) -> bool {
    forall|k: int| 0 <= k < t.len() && t[k] == '@' ==> escaped_at(t, k)
}

/// Whether `c` is one that escaping may act on.
pub open spec fn is_special(c: char) -> bool {
    c == '\\' || c == '[' || c == ']' || c == '@' || c == '<' || c == '*' || c == '_'
}

/// How many positions in `open` are below `m`.
pub open spec fn count_below(open: Seq<int>, m: int) -> nat
    decreases open.len(),
{
    if open.len() == 0 {
        0
    } else {
        count_below(open.drop_last(), m) + (if open.last() < m {
            1nat
        } else {
            0nat
        })
    }
}

/// The invariant of the escaping scan: `open` lists, in increasing order,
/// positions of unescaped `[` in `res`, and the bracket depth of every prefix
/// of `res` covers the listed positions in it, the whole text exactly.
pub open spec fn open_brackets_inv(res: Seq<char>, open: Seq<int>) -> bool {
    &&& forall|j: int|
        0 <= j < open.len() ==> 0 <= #[trigger] open[j] < res.len() && res[open[j]] == '['
            && !escaped_at(res, open[j])
    &&& forall|i: int, j: int| 0 <= i < j < open.len() ==> open[i] < open[j]
    &&& forall|m: int| 0 <= m <= res.len() ==> bracket_depth(res, m) >= count_below(open, m)
    &&& bracket_depth(res, res.len() as int) == open.len()
}

proof fn lemma_count_le(open: Seq<int>, m: int)
    ensures
        count_below(open, m) <= open.len(),
    decreases open.len(),
{
    if open.len() > 0 {
        lemma_count_le(open.drop_last(), m);
    }
}

proof fn lemma_count_all_below(open: Seq<int>, m: int)
    requires
        forall|j: int| 0 <= j < open.len() ==> open[j] < m,
    ensures
        count_below(open, m) == open.len(),
    decreases open.len(),
{
    if open.len() > 0 {
        lemma_count_all_below(open.drop_last(), m);
    }
}

/// Whether a position is escaped depends only on what comes before it.
pub(crate) proof fn lemma_escaped_prefix(a: Seq<char>, b: Seq<char>, k: int)
    requires
        0 <= k <= a.len(),
        k <= b.len(),
        forall|j: int| 0 <= j < k ==> a[j] == b[j],
    ensures
        escaped_at(a, k) == escaped_at(b, k),
    decreases k,
{
    if k > 0 {
        lemma_escaped_prefix(a, b, k - 1);
    }
}

/// The bracket depth of a prefix depends only on that prefix.
pub(crate) proof fn lemma_depth_prefix(a: Seq<char>, b: Seq<char>, m: int)
    requires
        0 <= m <= a.len(),
        m <= b.len(),
        forall|j: int| 0 <= j < m ==> a[j] == b[j],
    ensures
        bracket_depth(a, m) == bracket_depth(b, m),
    decreases m,
{
    if m > 0 {
        lemma_depth_prefix(a, b, m - 1);
        lemma_escaped_prefix(a, b, m - 1);
    }
}

/// Appending one character that is escaped or no bracket keeps the invariant.
proof fn lemma_push_plain(res: Seq<char>, open: Seq<int>, c: char)
    requires
        open_brackets_inv(res, open),
        escaped_at(res, res.len() as int) || (c != '[' && c != ']'),
    ensures
        open_brackets_inv(res.push(c), open),
        forall|k: int| 0 <= k <= res.len() ==> escaped_at(res.push(c), k) == escaped_at(res, k),
{
    let r2 = res.push(c);
    assert forall|k: int| 0 <= k <= res.len() implies escaped_at(r2, k) == escaped_at(res, k) by {
        lemma_escaped_prefix(res, r2, k);
    }
    assert forall|m: int| 0 <= m <= res.len() implies bracket_depth(r2, m) == bracket_depth(
        res,
        m,
    ) by {
        lemma_depth_prefix(res, r2, m);
    }
    assert(bracket_depth(r2, r2.len() as int) == bracket_depth(res, res.len() as int));
    assert(forall|j: int| 0 <= j < open.len() ==> open[j] < res.len());
    lemma_count_all_below(open, res.len() as int);
    lemma_count_all_below(open, r2.len() as int);
}

/// Appending an unescaped `[` and listing it keeps the invariant.
proof fn lemma_push_open(res: Seq<char>, open: Seq<int>)
    requires
        open_brackets_inv(res, open),
        !escaped_at(res, res.len() as int),
    ensures
        open_brackets_inv(res.push('['), open.push(res.len() as int)),
{
    let r2 = res.push('[');
    let o2 = open.push(res.len() as int);
    assert forall|k: int| 0 <= k <= res.len() implies escaped_at(r2, k) == escaped_at(res, k) by {
        lemma_escaped_prefix(res, r2, k);
    }
    assert forall|m: int| 0 <= m <= res.len() implies bracket_depth(r2, m) == bracket_depth(
        res,
        m,
    ) by {
        lemma_depth_prefix(res, r2, m);
    }
    assert(o2.drop_last() == open);
    assert forall|m: int| 0 <= m <= r2.len() implies bracket_depth(r2, m) >= count_below(o2, m) by {
        if m <= res.len() {
            assert(count_below(o2, m) == count_below(open, m));
        } else {
            lemma_count_le(o2, m);
        }
    }
    assert(bracket_depth(r2, r2.len() as int) == bracket_depth(res, res.len() as int) + 1);
}

/// Appending an unescaped `]` that matches the last listed `[` keeps the invariant.
proof fn lemma_push_close(res: Seq<char>, open: Seq<int>)
    requires
        open_brackets_inv(res, open),
        open.len() > 0,
        !escaped_at(res, res.len() as int),
    ensures
        open_brackets_inv(res.push(']'), open.drop_last()),
{
    let r2 = res.push(']');
    let o2 = open.drop_last();
    assert forall|k: int| 0 <= k <= res.len() implies escaped_at(r2, k) == escaped_at(res, k) by {
        lemma_escaped_prefix(res, r2, k);
    }
    assert forall|m: int| 0 <= m <= res.len() implies bracket_depth(r2, m) == bracket_depth(
        res,
        m,
    ) by {
        lemma_depth_prefix(res, r2, m);
    }
    assert(forall|j: int| 0 <= j < o2.len() ==> o2[j] == open[j]);
    assert forall|m: int| 0 <= m <= r2.len() implies bracket_depth(r2, m) >= count_below(o2, m) by {
        if m <= res.len() {
            assert(count_below(open, m) >= count_below(o2, m));
        } else {
            lemma_count_le(o2, m);
        }
    }
}

/// Appending a backslash and an escaped character keeps the invariant; the
/// character stands escaped and the text does not end in an escape.
proof fn lemma_push_pair(res: Seq<char>, open: Seq<int>, c: char)
    requires
        open_brackets_inv(res, open),
        !escaped_at(res, res.len() as int),
    ensures
        open_brackets_inv(res.push('\\').push(c), open),
        escaped_at(res.push('\\').push(c), res.len() + 1 as int),
        !escaped_at(res.push('\\').push(c), res.len() + 2 as int),
        forall|k: int|
            0 <= k <= res.len() ==> escaped_at(res.push('\\').push(c), k) == escaped_at(res, k),
{
    let r1 = res.push('\\');
    lemma_push_plain(res, open, '\\');
    assert(escaped_at(r1, r1.len() as int));
    lemma_push_plain(r1, open, c);
    let r2 = r1.push(c);
    assert(escaped_at(r2, res.len() + 1 as int) == escaped_at(r1, res.len() + 1 as int));
}

/// The escaping scan keeps its invariant, ends escaped exactly where `s`
/// does, and with `escape_refs` leaves no `@` unescaped.
proof fn lemma_scan_inv(s: Seq<char>, escape_refs: bool, escape_markers: bool, n: int)
    requires
        0 <= n <= s.len(),
    ensures
        ({
            let p = markup_scan(s, escape_refs, escape_markers, n);
            &&& open_brackets_inv(p.0, p.1)
            &&& escaped_at(p.0, p.0.len() as int) == escaped_at(s, n)
            &&& escape_refs ==> at_signs_escaped(p.0)
        }),
    decreases n,
{
    if n == 0 {
        let p = markup_scan(s, escape_refs, escape_markers, 0);
        assert(p.0 =~= Seq::<char>::empty());
        assert(p.1 =~= Seq::<int>::empty());
    } else {
        lemma_scan_inv(s, escape_refs, escape_markers, n - 1);
        let k = n - 1;
        let p = markup_scan(s, escape_refs, escape_markers, k);
        let res = p.0;
        let open = p.1;
        let c = s[k];
        let q = markup_step(s, escape_refs, escape_markers, res, open, k);
        assert(markup_scan(s, escape_refs, escape_markers, n) == q);
        let len = res.len() as int;
        if escaped_at(s, k) || c == '\\' {
            lemma_push_plain(res, open, c);
            assert(q.0 == res.push(c));
            if escaped_at(s, k) {
                assert(escaped_at(q.0, len));
                assert(!escaped_at(q.0, len + 1));
                assert(!escaped_at(s, n));
            } else {
                assert(escaped_at(q.0, len + 1));
                assert(escaped_at(s, n));
            }
            if escape_refs {
                assert forall|j: int| 0 <= j < q.0.len() && q.0[j] == '@' implies escaped_at(
                    q.0,
                    j,
                ) by {
                    if j < len {
                        assert(q.0[j] == res[j]);
                    }
                }
            }
        } else if c == '[' {
            lemma_push_open(res, open);
            let r2 = res.push('[');
            lemma_escaped_prefix(res, r2, len);
            if escape_refs {
                assert forall|j: int| 0 <= j < r2.len() && r2[j] == '@' implies escaped_at(
                    r2,
                    j,
                ) by {
                    assert(j < len);
                    assert(r2[j] == res[j]);
                    lemma_escaped_prefix(res, r2, j);
                }
            }
        } else if c == ']' && open.len() > 0 {
            lemma_push_close(res, open);
            let r2 = res.push(']');
            lemma_escaped_prefix(res, r2, len);
            if escape_refs {
                assert forall|j: int| 0 <= j < r2.len() && r2[j] == '@' implies escaped_at(
                    r2,
                    j,
                ) by {
                    assert(j < len);
                    assert(r2[j] == res[j]);
                    lemma_escaped_prefix(res, r2, j);
                }
            }
        } else if q.0 == res.push('\\').push(c) {
            lemma_push_pair(res, open, c);
            let r2 = res.push('\\').push(c);
            if escape_refs {
                assert forall|j: int| 0 <= j < r2.len() && r2[j] == '@' implies escaped_at(
                    r2,
                    j,
                ) by {
                    if j < len {
                        assert(r2[j] == res[j]);
                    }
                }
            }
        } else {
            assert(q.0 == res.push(c));
            assert(c != '[' && c != ']');
            lemma_push_plain(res, open, c);
            let r2 = res.push(c);
            if escape_refs {
                assert(c != '@');
                assert forall|j: int| 0 <= j < r2.len() && r2[j] == '@' implies escaped_at(
                    r2,
                    j,
                ) by {
                    assert(j < len);
                    assert(r2[j] == res[j]);
                }
            }
        }
    }
}

/// After a backslash is inserted before the unescaped `[` at `p`, that `[`
/// stands escaped, and every later position is escaped exactly as it was
/// one place earlier.
proof fn lemma_insert_escaped(t: Seq<char>, p: int)
    requires
        0 <= p < t.len(),
        t[p] == '[',
        !escaped_at(t, p),
    ensures
        forall|k: int| 0 <= k <= p ==> escaped_at(t.insert(p, '\\'), k) == escaped_at(t, k),
        escaped_at(t.insert(p, '\\'), p + 1),
        forall|k: int|
            p + 1 <= k <= t.len() ==> escaped_at(t.insert(p, '\\'), k + 1) == escaped_at(t, k),
{
    let t2 = t.insert(p, '\\');
    assert forall|k: int| 0 <= k <= p implies escaped_at(t2, k) == escaped_at(t, k) by {
        lemma_escaped_prefix(t, t2, k);
    }
    assert forall|k: int| p + 1 <= k <= t.len() implies escaped_at(t2, k + 1) == escaped_at(
        t,
        k,
    ) by {
        lemma_insert_escaped_from(t, p, k);
    }
}

proof fn lemma_insert_escaped_from(t: Seq<char>, p: int, k: int)
    requires
        0 <= p < t.len(),
        t[p] == '[',
        !escaped_at(t, p),
        p + 1 <= k <= t.len(),
    ensures
        escaped_at(t.insert(p, '\\'), k + 1) == escaped_at(t, k),
    decreases k,
{
    let t2 = t.insert(p, '\\');
    if k == p + 1 {
        assert(t2[p + 1] == '[');
    } else {
        lemma_insert_escaped_from(t, p, k - 1);
        assert(t2[k] == t[k - 1]);
    }
}

/// How inserting a backslash before the unescaped `[` at `p` moves the depth.
proof fn lemma_insert_depth(t: Seq<char>, p: int, m: int)
    requires
        0 <= p < t.len(),
        t[p] == '[',
        !escaped_at(t, p),
        0 <= m <= t.len() + 1,
    ensures
        m <= p ==> bracket_depth(t.insert(p, '\\'), m) == bracket_depth(t, m),
        m == p + 1 ==> bracket_depth(t.insert(p, '\\'), m) == bracket_depth(t, p),
        m >= p + 2 ==> bracket_depth(t.insert(p, '\\'), m) == bracket_depth(t, m - 1) - 1,
    decreases m,
{
    let t2 = t.insert(p, '\\');
    lemma_insert_escaped(t, p);
    if m <= p {
        lemma_depth_prefix(t, t2, m);
    } else if m == p + 1 {
        lemma_insert_depth(t, p, p);
        assert(t2[p] == '\\');
    } else if m == p + 2 {
        lemma_insert_depth(t, p, p + 1);
    } else {
        lemma_insert_depth(t, p, m - 1);
        assert(t2[m - 1] == t[m - 2]);
        assert(escaped_at(t2, m - 1) == escaped_at(t, m - 2));
    }
}

/// Inserting the backslashes before the listed `[` balances the text, keeps
/// its escaped end, and escapes no `@` that was not escaped.
proof fn lemma_insert_backslashes(t: Seq<char>, open: Seq<int>)
    requires
        open_brackets_inv(t, open),
    ensures
        ({
            let f = insert_backslashes(t, open);
            &&& forall|m: int| 0 <= m <= f.len() ==> bracket_depth(f, m) >= 0
            &&& bracket_depth(f, f.len() as int) == 0
            &&& escaped_at(f, f.len() as int) == escaped_at(t, t.len() as int)
            &&& at_signs_escaped(t) ==> at_signs_escaped(f)
        }),
    decreases open.len(),
{
    if open.len() == 0 {
        assert forall|m: int| 0 <= m <= t.len() implies bracket_depth(t, m) >= 0 by {
            assert(bracket_depth(t, m) >= count_below(open, m));
        }
    } else {
        let p = open.last();
        let o2 = open.drop_last();
        let t2 = t.insert(p, '\\');
        assert(0 <= open[open.len() - 1] < t.len());
        lemma_insert_escaped(t, p);
        assert forall|j: int| 0 <= j < o2.len() implies o2[j] < p by {
            assert(open[j] < open[open.len() - 1]);
        }
        // The listed positions below `p` still hold unescaped `[`.
        assert forall|j: int| 0 <= j < o2.len() implies 0 <= #[trigger] o2[j] < t2.len() && t2[o2[j]]
            == '[' && !escaped_at(t2, o2[j]) by {
            assert(o2[j] == open[j]);
            assert(o2[j] < p);
        }
        lemma_count_all_below(o2, p);
        lemma_count_le(o2, p + 1);
        assert forall|m: int| 0 <= m <= t2.len() implies bracket_depth(t2, m) >= count_below(
            o2,
            m,
        ) by {
            lemma_insert_depth(t, p, m);
            assert(count_below(open, m) == count_below(o2, m) + (if p < m {
                1nat
            } else {
                0nat
            }));
            if m <= p {
                assert(bracket_depth(t, m) >= count_below(open, m));
            } else if m == p + 1 {
                assert(bracket_depth(t, p) >= count_below(open, p));
                assert(count_below(open, p) == count_below(o2, p));
                lemma_count_all_below(o2, m);
            } else {
                assert(bracket_depth(t, m - 1) >= count_below(open, m - 1));
                assert forall|j: int| 0 <= j < open.len() implies open[j] < m - 1 by {
                    if j < o2.len() {
                        assert(open[j] == o2[j]);
                    }
                }
                lemma_count_all_below(open, m - 1);
                lemma_count_le(o2, m);
            }
        }
        lemma_insert_depth(t, p, t.len() + 1 as int);
        assert(open_brackets_inv(t2, o2));
        lemma_insert_backslashes(t2, o2);
        assert(insert_backslashes(t, open) == insert_backslashes(t2, o2));
        if at_signs_escaped(t) {
            assert forall|k: int| 0 <= k < t2.len() && t2[k] == '@' implies escaped_at(t2, k) by {
                if k < p {
                    assert(t2[k] == t[k]);
                } else if k >= p + 2 {
                    assert(t2[k] == t[k - 1]);
                } else {
                    assert(t2[p] == '\\');
                    assert(t2[p + 1] == '[');
                }
            }
        }
    }
}

/// A text ends in an escape exactly when it ends in an odd run of backslashes.
proof fn lemma_trailing_parity(t: Seq<char>)
    ensures
        escaped_at(t, t.len() as int) == (trailing_backslashes(t) % 2 == 1),
    decreases t.len(),
{
    if t.len() > 0 {
        let d = t.drop_last();
        lemma_trailing_parity(d);
        lemma_escaped_prefix(d, t, d.len() as int);
    }
}

/// Adding the space after an odd run of trailing backslashes closes the escape
/// without touching the brackets or the escaped `@`.
proof fn lemma_close_trailing(f: Seq<char>)
    requires
        forall|m: int| 0 <= m <= f.len() ==> bracket_depth(f, m) >= 0,
        bracket_depth(f, f.len() as int) == 0,
    ensures
        closes_content_block(close_trailing_escape(f)),
        at_signs_escaped(f) ==> at_signs_escaped(close_trailing_escape(f)),
{
    lemma_trailing_parity(f);
    if escaped_at(f, f.len() as int) {
        let g = f.push(' ');
        assert forall|m: int| 0 <= m <= f.len() implies bracket_depth(g, m) == bracket_depth(
            f,
            m,
        ) by {
            lemma_depth_prefix(f, g, m);
        }
        assert forall|k: int| 0 <= k <= f.len() implies escaped_at(g, k) == escaped_at(f, k) by {
            lemma_escaped_prefix(f, g, k);
        }
        assert(bracket_depth(g, g.len() as int) == 0);
        if at_signs_escaped(f) {
            assert forall|k: int| 0 <= k < g.len() && g[k] == '@' implies escaped_at(g, k) by {
                assert(k < f.len());
                assert(g[k] == f[k]);
            }
        }
    }
}

/// Escaped text never leaves the `#diff-added[...]`/`#diff-deleted[...]`
/// call around it unclosed: whatever the input, its unescaped brackets
/// balance and it does not end in a backslash that would escape the `]`.
pub proof fn law_escaped_markup_closes_block(s: Seq<char>, escape_refs: bool, escape_markers: bool)
    ensures
        closes_content_block(escape_markup_spec(s, escape_refs, escape_markers)),
{
    lemma_scan_inv(s, escape_refs, escape_markers, s.len() as int);
    let p = markup_scan(s, escape_refs, escape_markers, s.len() as int);
    lemma_insert_backslashes(p.0, p.1);
    lemma_close_trailing(insert_backslashes(p.0, p.1));
}

/// Content escaped for a content block, with or without its emphasis
/// markers kept, never leaves the call around it unclosed.
pub proof fn law_escaped_content_closes_block(s: Seq<char>, escape_refs: bool)
    ensures
        closes_content_block(escape_content_spec(s, escape_refs)),
{
    law_escaped_markup_closes_block(s, escape_refs, false);
    law_escaped_markup_closes_block(s, escape_refs, true);
}

/// With `escape_refs` (deleted text), no `@` is left to start a reference:
/// every `@` in the escaped text stands escaped.
pub proof fn law_deleted_refs_suppressed(s: Seq<char>)
    ensures
        at_signs_escaped(escape_content_spec(s, true)),
{
    assert forall|m: bool| #[trigger] at_signs_escaped(escape_markup_spec(s, true, m)) by {
        lemma_scan_inv(s, true, m, s.len() as int);
        let p = markup_scan(s, true, m, s.len() as int);
        lemma_insert_backslashes(p.0, p.1);
        let f = insert_backslashes(p.0, p.1);
        lemma_close_trailing(f);
    }
    assert(at_signs_escaped(escape_markup_spec(s, true, false)));
    assert(at_signs_escaped(escape_markup_spec(s, true, true)));
}

/// Appending one character: earlier positions keep their escapes and
/// depths, and the new character moves the depth unless it is escaped.
pub(crate) proof fn lemma_push_char(o: Seq<char>, c: char)
    ensures
        forall|k: int| 0 <= k <= o.len() ==> escaped_at(o.push(c), k) == escaped_at(o, k),
        forall|m: int| 0 <= m <= o.len() ==> bracket_depth(o.push(c), m) == bracket_depth(o, m),
        bracket_depth(o.push(c), o.len() + 1int) == bracket_depth(o, o.len() as int) + (if escaped_at(
            o,
            o.len() as int,
        ) {
            0
        } else if c == '[' {
            1
        } else if c == ']' {
            -1
        } else {
            0int
        }),
        escaped_at(o.push(c), o.len() + 1int) == (c == '\\' && !escaped_at(o, o.len() as int)),
{
    let o2 = o.push(c);
    assert forall|k: int| 0 <= k <= o.len() implies escaped_at(o2, k) == escaped_at(o, k) by {
        lemma_escaped_prefix(o, o2, k);
    }
    assert forall|m: int| 0 <= m <= o.len() implies bracket_depth(o2, m) == bracket_depth(o, m) by {
        lemma_depth_prefix(o, o2, m);
    }
}

/// Text appended after a text that does not end in an escape is read on its
/// own: its escapes are its own and its depth adds to the depth before it.
pub(crate) proof fn lemma_concat_depth(a: Seq<char>, b: Seq<char>, m: int)
    requires
        !escaped_at(a, a.len() as int),
        0 <= m <= b.len(),
    ensures
        escaped_at(a + b, a.len() + m) == escaped_at(b, m),
        bracket_depth(a + b, a.len() + m) == bracket_depth(a, a.len() as int) + bracket_depth(b, m),
    decreases m,
{
    let ab = a + b;
    if m == 0 {
        lemma_depth_prefix(a, ab, a.len() as int);
        lemma_escaped_prefix(a, ab, a.len() as int);
    } else {
        lemma_concat_depth(a, b, m - 1);
        assert(ab[a.len() + m - 1] == b[m - 1]);
    }
}

/// Appending a text whose own prefixes never close more than they open, to a
/// text that does not end in an escape, keeps every prefix depth non-negative.
pub(crate) proof fn lemma_concat_nonneg(a: Seq<char>, b: Seq<char>)
    requires
        !escaped_at(a, a.len() as int),
        forall|m: int| 0 <= m <= a.len() ==> bracket_depth(a, m) >= 0,
        forall|m: int| 0 <= m <= b.len() ==> bracket_depth(a, a.len() as int) + bracket_depth(b, m) >= 0,
    ensures
        forall|m: int| 0 <= m <= (a + b).len() ==> bracket_depth(a + b, m) >= 0,
        bracket_depth(a + b, (a + b).len() as int) == bracket_depth(a, a.len() as int) + bracket_depth(
            b,
            b.len() as int,
        ),
        escaped_at(a + b, (a + b).len() as int) == escaped_at(b, b.len() as int),
{
    assert forall|m: int| 0 <= m <= (a + b).len() implies bracket_depth(a + b, m) >= 0 by {
        if m <= a.len() {
            lemma_depth_prefix(a, a + b, m);
        } else {
            lemma_concat_depth(a, b, m - a.len());
        }
    }
    lemma_concat_depth(a, b, b.len() as int);
}

/// Text with no backslash or bracket has depth zero throughout and ends in no escape.
pub(crate) proof fn lemma_no_brackets(t: Seq<char>, m: int)
    requires
        0 <= m <= t.len(),
        forall|k: int| 0 <= k < t.len() ==> t[k] != '\\' && t[k] != '[' && t[k] != ']',
    ensures
        bracket_depth(t, m) == 0,
        !escaped_at(t, m),
    decreases m,
{
    if m > 0 {
        lemma_no_brackets(t, m - 1);
    }
}

proof fn lemma_scan_plain(s: Seq<char>, escape_refs: bool, escape_markers: bool, n: int)
    requires
        0 <= n <= s.len(),
        forall|k: int| 0 <= k < s.len() ==> !is_special(#[trigger] s[k]),
    ensures
        markup_scan(s, escape_refs, escape_markers, n).0 == s.take(n),
        markup_scan(s, escape_refs, escape_markers, n).1.len() == 0,
    decreases n,
{
    if n == 0 {
        assert(s.take(0) =~= Seq::<char>::empty());
    } else {
        lemma_scan_plain(s, escape_refs, escape_markers, n - 1);
        assert(!is_special(s[n - 1]));
        assert(s.take(n) == s.take(n - 1).push(s[n - 1]));
    }
}

proof fn lemma_no_trailing_backslash(t: Seq<char>)
    requires
        forall|k: int| 0 <= k < t.len() ==> t[k] != '\\',
    ensures
        trailing_backslashes(t) == 0,
{
    if t.len() > 0 {
        assert(t.last() != '\\');
    }
}

/// Text with no backslash, bracket, `@`, `<`, `*` or `_` comes out of
/// escaping unchanged, whichever escaping is asked for.
pub proof fn law_plain_text_unchanged(s: Seq<char>, escape_refs: bool)
    requires
        forall|k: int| 0 <= k < s.len() ==> !is_special(#[trigger] s[k]),
    ensures
        escape_content_spec(s, escape_refs) == s,
{
    lemma_scan_plain(s, escape_refs, false, s.len() as int);
    lemma_scan_plain(s, escape_refs, true, s.len() as int);
    assert(s.take(s.len() as int) == s);
    lemma_no_trailing_backslash(s);
    assert(escape_markup_spec(s, escape_refs, false) == s);
    assert(escape_markup_spec(s, escape_refs, true) == s);
}


/// Every `*` or `_` in `t` that no backslash escapes has a letter or digit on
/// each side, so Typst reads it as literal text.
pub open spec fn markers_literal(t: Seq<char>) -> bool {
    forall|k: int|
        0 <= k < t.len() && (t[k] == '*' || t[k] == '_') && !escaped_at(t, k) ==> word_adjacent(
            t,
            k,
        )
}

/// Escaping text that already closes a content block, and whose emphasis
/// markers (when those are escaped) are all literal, scans it unchanged.
proof fn lemma_rescan(t: Seq<char>, escape_markers: bool, n: int)
    requires
        0 <= n <= t.len(),
        forall|m: int| 0 <= m <= t.len() ==> bracket_depth(t, m) >= 0,
        escape_markers ==> markers_literal(t),
    ensures
        markup_scan(t, false, escape_markers, n).0 == t.take(n),
        markup_scan(t, false, escape_markers, n).1.len() == bracket_depth(t, n),
    decreases n,
{
    if n == 0 {
        assert(t.take(0) =~= Seq::<char>::empty());
    } else {
        let k = n - 1;
        lemma_rescan(t, escape_markers, k);
        let p = markup_scan(t, false, escape_markers, k);
        assert(markup_scan(t, false, escape_markers, n) == markup_step(
            t,
            false,
            escape_markers,
            p.0,
            p.1,
            k,
        ));
        assert(t.take(n) == t.take(k).push(t[k]));
        assert(bracket_depth(t, n) >= 0);
    }
}

/// Text that closes a content block, with literal markers when markers are
/// escaped, is left as it is by escaping (references left alone).
proof fn lemma_escape_fixed_point(t: Seq<char>, escape_markers: bool)
    requires
        closes_content_block(t),
        escape_markers ==> markers_literal(t),
    ensures
        escape_markup_spec(t, false, escape_markers) == t,
{
    lemma_rescan(t, escape_markers, t.len() as int);
    assert(t.take(t.len() as int) == t);
    let p = markup_scan(t, false, escape_markers, t.len() as int);
    assert(p.1 =~= Seq::<int>::empty());
    assert(insert_backslashes(p.0, p.1) == t);
    lemma_trailing_parity(t);
}

/// The scan with markers escaped (references left alone): unescaped markers
/// are literal, except a last one whose word character is still to come.
pub open spec fn markers_scan_inv(s: Seq<char>, r: Seq<char>, n: int) -> bool {
    &&& n > 0 ==> r.len() > 0 && r.last() == s[n - 1]
    &&& forall|p: int|
        0 <= p < r.len() - 1 && (r[p] == '*' || r[p] == '_') && !escaped_at(r, p) ==> word_adjacent(
            r,
            p,
        )
    &&& (r.len() > 0 && (r.last() == '*' || r.last() == '_') && !escaped_at(r, r.len() - 1))
        ==> r.len() >= 2 && alphanumeric(r[r.len() - 2]) && word_adjacent(s, n - 1)
}

proof fn lemma_markers_scan(s: Seq<char>, n: int)
    requires
        0 <= n <= s.len(),
    ensures
        markers_scan_inv(s, markup_scan(s, false, true, n).0, n),
    decreases n,
{
    if n > 0 {
        let k = n - 1;
        lemma_markers_scan(s, k);
        lemma_scan_inv(s, false, true, k);
        let p = markup_scan(s, false, true, k);
        let r = p.0;
        let q = markup_step(s, false, true, r, p.1, k);
        assert(markup_scan(s, false, true, n) == q);
        let c = s[k];
        let len = r.len() as int;
        if q.0 == r.push(c) {
            let r2 = r.push(c);
            lemma_push_char(r, c);
            assert forall|j: int|
                0 <= j < r2.len() - 1 && (r2[j] == '*' || r2[j] == '_') && !escaped_at(
                    r2,
                    j,
                ) implies word_adjacent(r2, j) by {
                assert(r2[j] == r[j]);
                if j == len - 1 {
                    assert(word_adjacent(s, k - 1));
                    assert(r2[j + 1] == s[k]);
                }
            }
            if (c == '*' || c == '_') && !escaped_at(r2, len) {
                assert(!escaped_at(s, k));
                assert(word_adjacent(s, k));
                assert(r.last() == s[k - 1]);
            }
        } else {
            // A backslash and the character: `]` without `[`, or a marker.
            assert(q.0 == r.push('\\').push(c));
            assert(c == ']' || c == '*' || c == '_');
            let r1 = r.push('\\');
            let r2 = r1.push(c);
            lemma_push_char(r, '\\');
            lemma_push_char(r1, c);
            assert(!alphanumeric(c));
            assert(escaped_at(r2, len + 1));
            assert forall|j: int|
                0 <= j < r2.len() - 1 && (r2[j] == '*' || r2[j] == '_') && !escaped_at(
                    r2,
                    j,
                ) implies word_adjacent(r2, j) by {
                if j < len {
                    assert(r2[j] == r[j]);
                    assert(escaped_at(r1, j) == escaped_at(r, j));
                    if j == len - 1 {
                        assert(word_adjacent(s, k - 1));
                        assert(false);
                    }
                } else {
                    assert(r2[j] == '\\');
                }
            }
        }
    }
}

/// Inserting a backslash before an unescaped `[` keeps literal markers literal.
proof fn lemma_insert_keeps_markers(t: Seq<char>, p: int)
    requires
        0 <= p < t.len(),
        t[p] == '[',
        !escaped_at(t, p),
        markers_literal(t),
    ensures
        markers_literal(t.insert(p, '\\')),
{
    let t2 = t.insert(p, '\\');
    lemma_insert_escaped(t, p);
    assert forall|q: int|
        0 <= q < t2.len() && (t2[q] == '*' || t2[q] == '_') && !escaped_at(t2, q) implies word_adjacent(
        t2,
        q,
    ) by {
        if q < p {
            assert(t2[q] == t[q]);
            assert(word_adjacent(t, q));
            if q + 1 == p {
                assert(false);
            } else {
                assert(t2[q + 1] == t[q + 1]);
            }
            if q > 0 {
                assert(t2[q - 1] == t[q - 1]);
            }
        } else if q == p || q == p + 1 {
            assert(t2[p] == '\\');
            assert(t2[p + 1] == '[');
        } else {
            assert(t2[q] == t[q - 1]);
            assert(escaped_at(t2, q) == escaped_at(t, q - 1));
            assert(word_adjacent(t, q - 1));
            assert(t2[q - 1] == t[q - 2]);
            if q + 1 < t2.len() {
                assert(t2[q + 1] == t[q]);
            }
        }
    }
}

proof fn lemma_insert_backslashes_markers(t: Seq<char>, open: Seq<int>)
    requires
        open_brackets_inv(t, open),
        markers_literal(t),
    ensures
        markers_literal(insert_backslashes(t, open)),
    decreases open.len(),
{
    if open.len() > 0 {
        let p = open.last();
        let o2 = open.drop_last();
        let t2 = t.insert(p, '\\');
        assert(0 <= open[open.len() - 1] < t.len());
        lemma_insert_keeps_markers(t, p);
        // The remaining positions are those of `lemma_insert_backslashes`.
        lemma_insert_escaped(t, p);
        assert forall|j: int| 0 <= j < o2.len() implies o2[j] < p by {
            assert(open[j] < open[open.len() - 1]);
        }
        assert forall|j: int| 0 <= j < o2.len() implies 0 <= #[trigger] o2[j] < t2.len() && t2[o2[j]]
            == '[' && !escaped_at(t2, o2[j]) by {
            assert(o2[j] == open[j]);
        }
        lemma_count_all_below(o2, p);
        lemma_count_le(o2, p + 1);
        assert forall|m: int| 0 <= m <= t2.len() implies bracket_depth(t2, m) >= count_below(
            o2,
            m,
        ) by {
            lemma_insert_depth(t, p, m);
            assert(count_below(open, m) == count_below(o2, m) + (if p < m {
                1nat
            } else {
                0nat
            }));
            if m <= p {
                assert(bracket_depth(t, m) >= count_below(open, m));
            } else if m == p + 1 {
                assert(bracket_depth(t, p) >= count_below(open, p));
                assert(count_below(open, p) == count_below(o2, p));
                lemma_count_all_below(o2, m);
            } else {
                assert(bracket_depth(t, m - 1) >= count_below(open, m - 1));
                assert forall|j: int| 0 <= j < open.len() implies open[j] < m - 1 by {
                    if j < o2.len() {
                        assert(open[j] == o2[j]);
                    }
                }
                lemma_count_all_below(open, m - 1);
                lemma_count_le(o2, m);
            }
        }
        lemma_insert_depth(t, p, t.len() + 1int);
        assert(open_brackets_inv(t2, o2));
        lemma_insert_backslashes_markers(t2, o2);
        assert(insert_backslashes(t, open) == insert_backslashes(t2, o2));
    }
}

/// With markers escaped (references left alone), every marker left unescaped
/// is literal text.
proof fn lemma_escaped_markers_literal(s: Seq<char>)
    ensures
        markers_literal(escape_markup_spec(s, false, true)),
{
    let n = s.len() as int;
    lemma_markers_scan(s, n);
    lemma_scan_inv(s, false, true, n);
    let p = markup_scan(s, false, true, n);
    let r = p.0;
    assert(markers_literal(r)) by {
        assert forall|k: int|
            0 <= k < r.len() && (r[k] == '*' || r[k] == '_') && !escaped_at(r, k) implies word_adjacent(
            r,
            k,
        ) by {
            if k == r.len() - 1 {
                assert(word_adjacent(s, n - 1));
                assert(false);
            }
        }
    }
    lemma_insert_backslashes_markers(r, p.1);
    let f = insert_backslashes(r, p.1);
    lemma_trailing_parity(f);
    if trailing_backslashes(f) % 2 == 1 {
        let g = f.push(' ');
        lemma_push_char(f, ' ');
        assert forall|k: int|
            0 <= k < g.len() && (g[k] == '*' || g[k] == '_') && !escaped_at(g, k) implies word_adjacent(
            g,
            k,
        ) by {
            assert(k < f.len());
            assert(g[k] == f[k]);
            assert(word_adjacent(f, k));
            assert(g[k - 1] == f[k - 1]);
            assert(g[k + 1] == f[k + 1]);
        }
    }
}

/// Escaping text a second time changes nothing (references left alone): the
/// escapes of the first pass, and those already in the source, pass through
/// whole and nothing is escaped twice.
pub proof fn law_escape_markup_idempotent(s: Seq<char>, escape_markers: bool)
    ensures
        escape_markup_spec(escape_markup_spec(s, false, escape_markers), false, escape_markers)
            == escape_markup_spec(s, false, escape_markers),
{
    let t = escape_markup_spec(s, false, escape_markers);
    law_escaped_markup_closes_block(s, false, escape_markers);
    if escape_markers {
        lemma_escaped_markers_literal(s);
    }
    lemma_escape_fixed_point(t, escape_markers);
}

/// Escaping text for a content block a second time changes nothing
/// (references left alone), whichever way Typst's parser answers: escaped
/// text is left as it is with markers kept, and the escapes of the fallback
/// pass through it whole.
pub proof fn law_escape_content_idempotent(s: Seq<char>)
    ensures
        escape_content_spec(escape_content_spec(s, false), false) == escape_content_spec(s, false),
{
    let first = escape_markup_spec(s, false, false);
    let t = escape_content_spec(s, false);
    if typst_markup_erroneous(added_call_probe(first)) {
        law_escaped_markup_closes_block(s, false, true);
        lemma_escape_fixed_point(t, false);
        law_escape_markup_idempotent(s, true);
    } else {
        law_escaped_markup_closes_block(s, false, false);
        lemma_escape_fixed_point(t, false);
    }
}

/// Emphasis markers are kept when Typst's parser accepts the text escaped with
/// them kept; otherwise the markers are escaped, and every `*` or `_` left in
/// added text then stands as literal text between two letters or digits.
pub proof fn law_escape_content_markers(s: Seq<char>, escape_refs: bool)
    ensures
        !typst_markup_erroneous(added_call_probe(escape_markup_spec(s, escape_refs, false)))
            ==> escape_content_spec(s, escape_refs) == escape_markup_spec(s, escape_refs, false),
        typst_markup_erroneous(added_call_probe(escape_markup_spec(s, escape_refs, false)))
            ==> escape_content_spec(s, escape_refs) == escape_markup_spec(s, escape_refs, true),
        typst_markup_erroneous(added_call_probe(escape_markup_spec(s, false, false)))
            ==> markers_literal(escape_content_spec(s, false)),
{
    lemma_escaped_markers_literal(s);
}

} // verus!
