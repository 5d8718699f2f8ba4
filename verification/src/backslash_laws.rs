//! Which characters escaping puts a backslash before, stated character by
//! character over the input, and proved of `escape_markup_spec`.
use vstd::prelude::*;

use crate::escape::{
    close_trailing_escape, escape_markup_spec, escaped_at, insert_backslashes, markup_scan,
    markup_step, ref_label_arg, word_adjacent,
};

verus! {

/// Whether `s[k]` stands outside any escape sequence: it is no backslash, and
/// no backslash escapes it.
pub open spec fn unescaped_char(s: Seq<char>, k: int) -> bool {
    !escaped_at(s, k) && s[k] != '\\'
}

/// The number of `[` in `s[..n]` that are still open: each unescaped `[`
/// opens one, and each unescaped `]` closes one if any is open.
pub open spec fn open_depth(s: Seq<char>, n: int) -> nat
    decreases n,
{
    if n <= 0 {
        0
    } else {
        let d = open_depth(s, n - 1);
        let k = n - 1;
        if !unescaped_char(s, k) {
            d
        } else if s[k] == '[' {
            d + 1
        } else if s[k] == ']' && d > 0 {
            (d - 1) as nat
        } else {
            d
        }
    }
}

/// Whether `s[k]` is an unescaped `[` that no later `]` closes: up to the end
/// of `s`, the number of open brackets never falls back to what it was before it.
pub open spec fn unclosed_open(s: Seq<char>, k: int) -> bool {
    &&& unescaped_char(s, k)
    &&& s[k] == '['
    &&& forall|j: int| k < j <= s.len() ==> open_depth(s, j) > open_depth(s, k)
}

/// Whether escaping `s` puts a backslash before `s[k]`: an unescaped
/// character that is a `[` never closed, a `]` with no `[` open before it, an
/// `@` or a `<` that starts no label argument of `#ref(...)` when references
/// are escaped, or a `*` or `_` without a letter or digit on each side when
/// emphasis markers are escaped.
pub open spec fn gains_backslash(s: Seq<char>, escape_refs: bool, escape_markers: bool, k: int) -> bool {
    &&& unescaped_char(s, k)
    &&& {
        ||| unclosed_open(s, k)
        ||| s[k] == ']' && open_depth(s, k) == 0
        ||| s[k] == '@' && escape_refs
        ||| s[k] == '<' && escape_refs && !ref_label_arg(s, k)
        ||| (s[k] == '*' || s[k] == '_') && escape_markers && !word_adjacent(s, k)
    }
}

/// The character `c`, after a backslash when `b`.
pub open spec fn backslashed(c: char, b: bool) -> Seq<char> {
    if b {
        seq!['\\', c]
    } else {
        seq![c]
    }
}

/// The characters of `s[..n]`, each after a backslash where it gains one.
pub open spec fn backslashed_prefix(s: Seq<char>, escape_refs: bool, escape_markers: bool, n: int) -> Seq<
    char,
>
    decreases n,
{
    if n <= 0 {
        seq![]
    } else {
        backslashed_prefix(s, escape_refs, escape_markers, n - 1) + backslashed(
            s[n - 1],
            gains_backslash(s, escape_refs, escape_markers, n - 1),
        )
    }
}

/// Whether the scan puts a backslash before `s[k]` as it passes it: all the
/// cases of `gains_backslash` but a `[` never closed, which only the end of
/// the text decides.
spec fn scan_gain(s: Seq<char>, escape_refs: bool, escape_markers: bool, k: int) -> bool {
    &&& unescaped_char(s, k)
    &&& {
        ||| s[k] == ']' && open_depth(s, k) == 0
        ||| s[k] == '@' && escape_refs
        ||| s[k] == '<' && escape_refs && !ref_label_arg(s, k)
        ||| (s[k] == '*' || s[k] == '_') && escape_markers && !word_adjacent(s, k)
    }
}

/// The characters of `s[..n]`, each after a backslash where the scan puts
/// one or where its index is in `f`.
spec fn marked(s: Seq<char>, r: bool, m: bool, f: Set<int>, n: int) -> Seq<char>
    decreases n,
{
    if n <= 0 {
        seq![]
    } else {
        marked(s, r, m, f, n - 1) + backslashed(s[n - 1], scan_gain(s, r, m, n - 1) || f.contains(n - 1))
    }
}

/// The indices of the `[` in `s[..n]` still open, oldest first.
pub(crate) open spec fn open_indices(s: Seq<char>, n: int) -> Seq<int>
    decreases n,
{
    if n <= 0 {
        seq![]
    } else {
        let o = open_indices(s, n - 1);
        let k = n - 1;
        if !unescaped_char(s, k) {
            o
        } else if s[k] == '[' {
            o.push(k)
        } else if s[k] == ']' && o.len() > 0 {
            o.drop_last()
        } else {
            o
        }
    }
}

/// Whether the `[` at `s[k]` is still open after `s[..n]`.
pub(crate) open spec fn open_at(s: Seq<char>, k: int, n: int) -> bool {
    &&& unescaped_char(s, k)
    &&& s[k] == '['
    &&& forall|j: int| k < j <= n ==> open_depth(s, j) > open_depth(s, k)
}

/// The open indices after `s[..n]`: increasing, each an unescaped `[` at the
/// depth of its place in the list, and exactly the brackets still open.
pub(crate) proof fn lemma_open_indices(s: Seq<char>, n: int)
    requires
        0 <= n <= s.len(),
    ensures
        ({
            let o = open_indices(s, n);
            &&& o.len() == open_depth(s, n)
            &&& forall|i: int| 0 <= i < o.len() ==> 0 <= #[trigger] o[i] < n
            &&& forall|i: int| 0 <= i < o.len() ==> open_at(s, #[trigger] o[i], n)
            &&& forall|i: int| 0 <= i < o.len() ==> open_depth(s, #[trigger] o[i]) == i
            &&& forall|i: int, j: int| 0 <= i < j < o.len() ==> o[i] < o[j]
            &&& forall|k: int| 0 <= k < n && open_at(s, k, n) ==> o.contains(k)
        }),
    decreases n,
{
    if n > 0 {
        let k = n - 1;
        lemma_open_indices(s, k);
        let o = open_indices(s, k);
        let o2 = open_indices(s, n);
        let d = open_depth(s, k);
        if !unescaped_char(s, k) || (s[k] != '[' && s[k] != ']') {
            assert(o2 == o);
            assert(open_depth(s, n) == d);
            assert forall|i: int| 0 <= i < o2.len() implies open_at(s, #[trigger] o2[i], n) by {
                assert(open_at(s, o[i], k));
            }
            assert forall|q: int| 0 <= q < n && open_at(s, q, n) implies o2.contains(q) by {
                assert(open_at(s, q, k));
            }
        } else if s[k] == '[' {
            assert(o2 == o.push(k));
            assert forall|i: int| 0 <= i < o2.len() implies open_at(s, #[trigger] o2[i], n) by {
                if i < o.len() {
                    assert(o2[i] == o[i]);
                    assert(open_at(s, o[i], k));
                    assert(open_depth(s, o[i]) == i);
                }
            }
            assert forall|q: int| 0 <= q < n && open_at(s, q, n) implies o2.contains(q) by {
                if q < k {
                    assert(open_at(s, q, k));
                    assert(o.contains(q));
                    let i = choose|i: int| 0 <= i < o.len() && o[i] == q;
                    assert(o2[i] == q);
                } else {
                    assert(o2[o.len() as int] == q);
                }
            }
        } else if d > 0 {
            // A `]` closes the last open `[`.
            assert(o2 == o.drop_last());
            assert(open_depth(s, n) == d - 1);
            assert forall|i: int| 0 <= i < o2.len() implies open_at(s, #[trigger] o2[i], n) by {
                assert(o2[i] == o[i]);
                assert(open_at(s, o[i], k));
                assert(open_depth(s, o[i]) == i);
            }
            assert forall|q: int| 0 <= q < n && open_at(s, q, n) implies o2.contains(q) by {
                assert(open_at(s, q, k));
                assert(o.contains(q));
                let i = choose|i: int| 0 <= i < o.len() && o[i] == q;
                assert(open_depth(s, q) == i);
                assert(open_depth(s, n) > open_depth(s, q));
                assert(i < o2.len());
                assert(o2[i] == q);
            }
        } else {
            // A `]` with nothing open.
            assert(o2 == o);
            assert(open_depth(s, n) == 0);
            assert forall|q: int| 0 <= q < n && open_at(s, q, n) implies o2.contains(q) by {
                assert(open_depth(s, n) > open_depth(s, q));
            }
        }
    }
}

/// Where the scan of `s[..n]` stands: what it wrote is `s[..n]` with the
/// backslashes it puts as it passes, and its list of open brackets holds the
/// places in that text of the `[` still open.
proof fn lemma_scan_marked(s: Seq<char>, r: bool, m: bool, n: int)
    requires
        0 <= n <= s.len(),
    ensures
        markup_scan(s, r, m, n).0 == marked(s, r, m, Set::empty(), n),
        markup_scan(s, r, m, n).1 == open_indices(s, n).map_values(
            |k: int| marked(s, r, m, Set::empty(), k).len() as int,
        ),
    decreases n,
{
    if n > 0 {
        let k = n - 1;
        lemma_scan_marked(s, r, m, k);
        lemma_open_indices(s, k);
        let e = Set::<int>::empty();
        let p = markup_scan(s, r, m, k);
        let pos = |q: int| marked(s, r, m, e, q).len() as int;
        let o = open_indices(s, k);
        assert(markup_scan(s, r, m, n) == markup_step(s, r, m, p.0, p.1, k));
        assert(marked(s, r, m, e, n) == p.0 + backslashed(s[k], scan_gain(s, r, m, k) || e.contains(k)));
        if unescaped_char(s, k) && s[k] == '[' {
            assert(open_indices(s, n) == o.push(k));
            assert(o.push(k).map_values(pos) =~= o.map_values(pos).push(pos(k)));
        } else if unescaped_char(s, k) && s[k] == ']' && o.len() > 0 {
            assert(open_indices(s, n) == o.drop_last());
            assert(o.drop_last().map_values(pos) =~= o.map_values(pos).drop_last());
        }
    }
}

/// Which indices below `n` a set holds is all that `marked` reads of it.
proof fn lemma_marked_agree(s: Seq<char>, r: bool, m: bool, f: Set<int>, g: Set<int>, n: int)
    requires
        forall|k: int| 0 <= k < n ==> f.contains(k) == g.contains(k),
    ensures
        marked(s, r, m, f, n) == marked(s, r, m, g, n),
    decreases n,
{
    if n > 0 {
        lemma_marked_agree(s, r, m, f, g, n - 1);
    }
}

/// The text marked up to `k` is no longer than that marked up to `n >= k`.
proof fn lemma_marked_len(s: Seq<char>, r: bool, m: bool, f: Set<int>, k: int, n: int)
    requires
        k <= n,
    ensures
        marked(s, r, m, f, k).len() <= marked(s, r, m, f, n).len(),
    decreases n - k,
{
    if k < n {
        lemma_marked_len(s, r, m, f, k, n - 1);
    }
}

/// Putting a backslash where the `[` at `s[k]` was written marks `k`.
proof fn lemma_mark_one(s: Seq<char>, r: bool, m: bool, f: Set<int>, k: int, n: int)
    requires
        0 <= k < n,
        !f.contains(k),
        !scan_gain(s, r, m, k),
    ensures
        marked(s, r, m, f, n).insert(marked(s, r, m, f, k).len() as int, '\\') == marked(
            s,
            r,
            m,
            f.insert(k),
            n,
        ),
    decreases n,
{
    let f2 = f.insert(k);
    let a = marked(s, r, m, f, k);
    if n == k + 1 {
        lemma_marked_agree(s, r, m, f, f2, k);
        assert(marked(s, r, m, f2, n) == a + seq!['\\', s[k]]);
        assert(marked(s, r, m, f, n) == a + seq![s[k]]);
        assert((a + seq![s[k]]).insert(a.len() as int, '\\') =~= a + seq!['\\', s[k]]);
    } else {
        lemma_mark_one(s, r, m, f, k, n - 1);
        lemma_marked_len(s, r, m, f, k, n - 1);
        let b = marked(s, r, m, f, n - 1);
        let c = backslashed(s[n - 1], scan_gain(s, r, m, n - 1) || f.contains(n - 1));
        assert(f2.contains(n - 1) == f.contains(n - 1));
        assert((b + c).insert(a.len() as int, '\\') =~= b.insert(a.len() as int, '\\') + c);
    }
}

/// Putting backslashes at the places of the `[` at the indices of `o`
/// (increasing, none of them marked by the scan, all below those of `f`)
/// marks those indices.
proof fn lemma_insert_marks(s: Seq<char>, r: bool, m: bool, f: Set<int>, o: Seq<int>, n: int)
    requires
        forall|i: int| 0 <= i < o.len() ==> 0 <= #[trigger] o[i] < n,
        forall|i: int| 0 <= i < o.len() ==> !scan_gain(s, r, m, #[trigger] o[i]),
        forall|i: int, j: int| 0 <= i < j < o.len() ==> o[i] < o[j],
        forall|x: int, i: int| f.contains(x) && 0 <= i < o.len() ==> o[i] < x,
    ensures
        insert_backslashes(
            marked(s, r, m, f, n),
            o.map_values(|k: int| marked(s, r, m, f, k).len() as int),
        ) == marked(s, r, m, f + o.to_set(), n),
    decreases o.len(),
{
    let pos = |k: int| marked(s, r, m, f, k).len() as int;
    let ps = o.map_values(pos);
    if o.len() == 0 {
        assert(f + o.to_set() =~= f);
        assert(insert_backslashes(marked(s, r, m, f, n), ps) == marked(s, r, m, f, n));
    } else {
        let k = o.last();
        let o2 = o.drop_last();
        let f2 = f.insert(k);
        let pos2 = |q: int| marked(s, r, m, f2, q).len() as int;
        assert(0 <= o[o.len() - 1] < n);
        assert(!scan_gain(s, r, m, o[o.len() - 1]));
        assert(!f.contains(k));
        lemma_mark_one(s, r, m, f, k, n);
        assert forall|i: int| 0 <= i < o2.len() implies #[trigger] pos2(o2[i]) == pos(o2[i]) by {
            assert(o2[i] == o[i]);
            assert(o[i] < o[o.len() - 1]);
            lemma_marked_agree(s, r, m, f, f2, o2[i]);
        }
        assert(o2.map_values(pos2) =~= ps.drop_last());
        assert(ps.last() == pos(k));
        assert forall|x: int, i: int| f2.contains(x) && 0 <= i < o2.len() implies o2[i] < x by {
            assert(o2[i] == o[i]);
            if x != k {
                assert(o[i] < x);
            } else {
                assert(o[i] < o[o.len() - 1]);
            }
        }
        assert forall|i: int| 0 <= i < o2.len() implies 0 <= #[trigger] o2[i] < n && !scan_gain(
            s,
            r,
            m,
            o2[i],
        ) by {
            assert(o2[i] == o[i]);
        }
        lemma_insert_marks(s, r, m, f2, o2, n);
        assert(f2 + o2.to_set() =~= f + o.to_set()) by {
            assert forall|x: int| (f + o.to_set()).contains(x) implies (f2 + o2.to_set()).contains(x) by {
                if o.to_set().contains(x) && x != k {
                    let i = choose|i: int| 0 <= i < o.len() && o[i] == x;
                    assert(i < o2.len());
                    assert(o2[i] == x);
                }
            }
            assert forall|x: int| (f2 + o2.to_set()).contains(x) implies (f + o.to_set()).contains(x) by {
                if x == k {
                    assert(o[o.len() - 1] == x);
                }
                if o2.to_set().contains(x) {
                    let i = choose|i: int| 0 <= i < o2.len() && o2[i] == x;
                    assert(o[i] == x);
                }
            }
        }
    }
}

/// The backslashed prefix is the marked text when the set holds exactly the
/// indices of the `[` never closed.
proof fn lemma_prefix_marked(s: Seq<char>, r: bool, m: bool, f: Set<int>, n: int)
    requires
        forall|k: int| 0 <= k < n ==> f.contains(k) == unclosed_open(s, k),
    ensures
        backslashed_prefix(s, r, m, n) == marked(s, r, m, f, n),
    decreases n,
{
    if n > 0 {
        lemma_prefix_marked(s, r, m, f, n - 1);
    }
}

/// Escaping `s` puts a backslash before exactly the characters that
/// `gains_backslash` names, keeps every other character as it is and in
/// order, and adds a space when the result would end inside an escape.
pub proof fn law_escape_markup_backslashes(s: Seq<char>, escape_refs: bool, escape_markers: bool)
    ensures
        escape_markup_spec(s, escape_refs, escape_markers) == close_trailing_escape(
            backslashed_prefix(s, escape_refs, escape_markers, s.len() as int),
        ),
{
    let n = s.len() as int;
    let r = escape_refs;
    let m = escape_markers;
    let e = Set::<int>::empty();
    lemma_scan_marked(s, r, m, n);
    lemma_open_indices(s, n);
    let o = open_indices(s, n);
    assert forall|x: int, i: int| e.contains(x) && 0 <= i < o.len() implies o[i] < x by {}
    assert forall|i: int| 0 <= i < o.len() implies !scan_gain(s, r, m, #[trigger] o[i]) by {
        assert(open_at(s, o[i], n));
    }
    lemma_insert_marks(s, r, m, e, o, n);
    let f = e + o.to_set();
    assert forall|k: int| 0 <= k < n implies f.contains(k) == unclosed_open(s, k) by {
        if f.contains(k) {
            let i = choose|i: int| 0 <= i < o.len() && o[i] == k;
            assert(open_at(s, o[i], n));
        }
        if unclosed_open(s, k) {
            assert(open_at(s, k, n));
        }
    }
    lemma_prefix_marked(s, r, m, f, n);
}

} // verus!
