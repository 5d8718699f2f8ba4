//! Escaping text so that it can stand inside a Typst content block `[...]`.
use vstd::prelude::*;

use crate::backslash_laws::{backslashed_prefix, law_escape_markup_backslashes};
use crate::label::{label_end_spec, TypstLabel};
use crate::text::{
    chars_of, is_alphanumeric, push_chars, push_str, string_of, trim_end_bound, trim_end_spec,
    alphanumeric,
};

verus! {

/// Whether the parser of `typst_syntax` reports an error anywhere in the
/// markup document `text` (`typst_syntax::parse(text).erroneous()`).
pub uninterp spec fn typst_markup_erroneous(text: Seq<char>) -> bool;

/// Calls `typst_syntax::parse` on the characters of `text` and asks the root
/// node `erroneous()`. The contract ties the answer to the text through
/// `typst_markup_erroneous` only: Typst's markup grammar is not stated.
#[verifier::external_body]
fn markup_is_erroneous(text: &Vec<char>) -> (r: bool)
    ensures
        r == typst_markup_erroneous(text@),
{
    let s: String = text.iter().collect();
    typst_syntax::parse(&s).erroneous()
}

/// Whether the character at `k` is the one escaped by a backslash: the
/// character before it is a backslash that does not itself stand escaped.
/// At `k == s.len()` this says whether a character appended to `s` would be escaped.
pub open spec fn escaped_at(s: Seq<char>, k: int) -> bool
    decreases k,
{
    if k <= 0 || k > s.len() {
        false
    } else {
        s[k - 1] == '\\' && !escaped_at(s, k - 1)
    }
}

/// Whether the character at `i` has an alphanumeric character on each side
/// within `s`, which makes a `*` or `_` literal text in Typst.
pub open spec fn word_adjacent(s: Seq<char>, i: int) -> bool {
    &&& 0 < i
    &&& i + 1 < s.len()
    &&& alphanumeric(s[i - 1])
    &&& alphanumeric(s[i + 1])
}

/// Whether `t` ends with `#ref`.
pub open spec fn ends_with_ref(t: Seq<char>) -> bool {
    &&& t.len() >= 4
    &&& t[t.len() - 4] == '#'
    &&& t[t.len() - 3] == 'r'
    &&& t[t.len() - 2] == 'e'
    &&& t[t.len() - 1] == 'f'
}

/// Whether `s[i]` starts a label literal that is the first argument of a
/// `#ref(...)` call: a label starts there, and before it, whitespace aside,
/// stand `(` and, before that, `#ref`.
pub open spec fn ref_label_arg(s: Seq<char>, i: int) -> bool {
    &&& label_end_spec(s.skip(i)) is Some
    &&& {
        let before = trim_end_spec(s.take(i));
        &&& before.len() > 0
        &&& before.last() == '('
        &&& ends_with_ref(trim_end_spec(before.drop_last()))
    }
}

/// One step of the escaping scan over `s`, at `s[k]`: `res` is the text
/// written so far and `open` the positions in `res` of the `[` not yet matched.
pub open spec fn markup_step(
    s: Seq<char>,
    escape_refs: bool,
    escape_markers: bool,
    res: Seq<char>,
    open: Seq<int>,
    k: int,
) -> (Seq<char>, Seq<int>) {
    let c = s[k];
    if escaped_at(s, k) || c == '\\' {
        (res.push(c), open)
    } else if c == '[' {
        (res.push(c), open.push(res.len() as int))
    } else if c == ']' {
        if open.len() > 0 {
            (res.push(c), open.drop_last())
        } else {
            (res.push('\\').push(c), open)
        }
    } else if c == '@' && escape_refs {
        (res.push('\\').push(c), open)
    } else if c == '<' && escape_refs && !ref_label_arg(s, k) {
        (res.push('\\').push(c), open)
    } else if (c == '*' || c == '_') && escape_markers && !word_adjacent(s, k) {
        (res.push('\\').push(c), open)
    } else {
        (res.push(c), open)
    }
}

/// The escaping scan over the first `n` characters of `s`.
pub open spec fn markup_scan(s: Seq<char>, escape_refs: bool, escape_markers: bool, n: int) -> (
    Seq<char>,
    Seq<int>,
)
    decreases n,
{
    if n <= 0 {
        (seq![], seq![])
    } else {
        let p = markup_scan(s, escape_refs, escape_markers, n - 1);
        markup_step(s, escape_refs, escape_markers, p.0, p.1, n - 1)
    }
}

/// `res` with a backslash inserted at each position of `open`, the last
/// position first.
pub open spec fn insert_backslashes(res: Seq<char>, open: Seq<int>) -> Seq<char>
    decreases open.len(),
{
    if open.len() == 0 {
        res
    } else {
        insert_backslashes(res.insert(open.last(), '\\'), open.drop_last())
    }
}

/// The number of backslashes at the end of `t`.
pub open spec fn trailing_backslashes(t: Seq<char>) -> nat
    decreases t.len(),
{
    if t.len() > 0 && t.last() == '\\' {
        1 + trailing_backslashes(t.drop_last())
    } else {
        0
    }
}

/// `t`, with a space appended when it ends with an odd number of backslashes.
pub open spec fn close_trailing_escape(t: Seq<char>) -> Seq<char> {
    if trailing_backslashes(t) % 2 == 1 {
        t.push(' ')
    } else {
        t
    }
}

/// `s` escaped for a content block: unmatched `[`/`]` escaped, existing
/// escapes copied whole, `@` and `<` escaped when `escape_refs` (a label
/// argument of `#ref(...)` aside), `*`/`_` escaped when `escape_markers` unless
/// letters or digits surround them, and a space added after an odd run of
/// trailing backslashes.
pub open spec fn escape_markup_spec(s: Seq<char>, escape_refs: bool, escape_markers: bool) -> Seq<
    char,
> {
    let p = markup_scan(s, escape_refs, escape_markers, s.len() as int);
    close_trailing_escape(insert_backslashes(p.0, p.1))
}

/// The probe handed to Typst's parser: `text` inside a `#diff-added[...]` call.
pub open spec fn added_call_probe(text: Seq<char>) -> Seq<char> {
    "#diff-added["@ + text + seq![']']
}

/// `s` escaped for a content block. Emphasis markers are kept unless Typst's
/// parser rejects the block they make, in which case every marker that is
/// not literal text is escaped as well.
pub open spec fn escape_content_spec(s: Seq<char>, escape_refs: bool) -> Seq<char> {
    let first = escape_markup_spec(s, escape_refs, false);
    if typst_markup_erroneous(added_call_probe(first)) {
        escape_markup_spec(s, escape_refs, true)
    } else {
        first
    }
}

pub open spec fn as_ints(v: Seq<usize>) -> Seq<int> {
    v.map_values(|p: usize| p as int)
}

/// True when the `*`/`_` at `s[i]` has a letter or digit on both sides.
fn is_word_adjacent_marker(s: &Vec<char>, i: usize) -> (r: bool)
    requires
        i < s.len(),
    ensures
        r == word_adjacent(s@, i as int),
{
    if i == 0 || i + 1 >= s.len() {
        return false;
    }
    let prev_word = is_alphanumeric(s[i - 1]);
    let next_word = is_alphanumeric(s[i + 1]);
    prev_word && next_word
}

/// True when `s[label_start]` starts the label argument of a `#ref(...)` call.
fn is_ref_label_arg(s: &Vec<char>, label_start: usize) -> (r: bool)
    requires
        label_start < s.len(),
    ensures
        r == ref_label_arg(s@, label_start as int),
{
    if TypstLabel::end(s, label_start).is_none() {
        return false;
    }
    let k1 = trim_end_bound(s, label_start);
    if k1 == 0 || s[k1 - 1] != '(' {
        return false;
    }
    proof {
        assert(s@.take(k1 as int).drop_last() == s@.take(k1 - 1));
    }
    let k2 = trim_end_bound(s, k1 - 1);
    k2 >= 4 && s[k2 - 4] == '#' && s[k2 - 3] == 'r' && s[k2 - 2] == 'e' && s[k2 - 1] == 'f'
}

/// The number of backslashes at the end of `t`.
fn count_trailing_backslashes(t: &Vec<char>) -> (n: usize)
    ensures
        n == trailing_backslashes(t@),
{
    let len = t.len();
    let mut n: usize = 0;
    proof {
        assert(t@.take(len as int) == t@);
    }
    while n < len && t[len - 1 - n] == '\\'
        invariant
            n <= len == t.len(),
            trailing_backslashes(t@) == n + trailing_backslashes(t@.take(len - n)),
        decreases len - n,
    {
        proof {
            assert(t@.take(len - n).drop_last() == t@.take(len - n - 1));
        }
        n += 1;
    }
    proof {
        if n == len {
            assert(t@.take(0) =~= Seq::<char>::empty());
        } else {
            assert(t@.take(len - n).last() == t@[len - 1 - n]);
        }
        assert(t@.take(len as int) == t@);
    }
    n
}

/// Escape `s` for use inside a content block. With `escape_markers`, every
/// `*`/`_` that Typst would not treat as literal text is escaped too. The
/// result is `s` with a backslash before each character that
/// `gains_backslash` names, and a space after an odd run of trailing backslashes.
pub fn escape_markup(s: &Vec<char>, escape_refs: bool, escape_markers: bool) -> (r: Vec<char>)
    ensures
        r@ == escape_markup_spec(s@, escape_refs, escape_markers),
        r@ == close_trailing_escape(
            backslashed_prefix(s@, escape_refs, escape_markers, s@.len() as int),
        ),
{
    proof {
        law_escape_markup_backslashes(s@, escape_refs, escape_markers);
    }
    let mut result: Vec<char> = Vec::new();
    // Positions in `result` of `[` characters not yet matched by a `]`. Any
    // left over at the end get a `\` inserted in front of them.
    let mut unmatched_open_brackets: Vec<usize> = Vec::new();
    let n = s.len();
    let mut i: usize = 0;
    while i < n
        invariant
            n == s.len(),
            i <= n,
            i < n ==> !escaped_at(s@, i as int),
            (result@, as_ints(unmatched_open_brackets@)) == markup_scan(
                s@,
                escape_refs,
                escape_markers,
                i as int,
            ),
            forall|j: int|
                0 <= j < unmatched_open_brackets.len() ==> unmatched_open_brackets[j]
                    < result.len(),
        decreases n - i,
    {
        let ghost old_open = unmatched_open_brackets@;
        let ghost step = markup_step(
            s@,
            escape_refs,
            escape_markers,
            result@,
            as_ints(unmatched_open_brackets@),
            i as int,
        );
        let ghost i0 = i;
        let c = s[i];
        if c == '\\' {
            // An escape sequence is already literal; copy it through whole.
            result.push('\\');
            if i + 1 < n {
                result.push(s[i + 1]);
                proof {
                    assert(escaped_at(s@, i + 1));
                    assert(!escaped_at(s@, i + 2));
                }
                i += 2;
            } else {
                i += 1;
            }
        } else if c == '[' {
            unmatched_open_brackets.push(result.len());
            result.push(c);
            proof {
                assert(as_ints(unmatched_open_brackets@) == as_ints(old_open).push(
                    (result.len() - 1) as int,
                ));
            }
            i += 1;
        } else if c == ']' {
            if unmatched_open_brackets.len() > 0 {
                unmatched_open_brackets.pop();
                proof {
                    assert(as_ints(unmatched_open_brackets@) == as_ints(old_open).drop_last());
                }
                result.push(c);
            } else {
                result.push('\\');
                result.push(']');
            }
            i += 1;
        } else if c == '@' && escape_refs {
            result.push('\\');
            result.push('@');
            i += 1;
        } else if c == '<' && escape_refs && !is_ref_label_arg(s, i) {
            // Bare deleted labels are escaped so they do not create anchors.
            result.push('\\');
            result.push('<');
            i += 1;
        } else if (c == '*' || c == '_') && escape_markers && !is_word_adjacent_marker(s, i) {
            result.push('\\');
            result.push(c);
            i += 1;
        } else {
            result.push(c);
            i += 1;
        }
        proof {
            if i == i0 + 1 {
                assert(markup_scan(s@, escape_refs, escape_markers, i as int) == step);
                assert(result@ =~= step.0);
                assert(as_ints(unmatched_open_brackets@) =~= step.1);
                if i < n {
                    assert(s@[i0 as int] != '\\');
                    assert(!escaped_at(s@, i as int));
                }
            } else {
                assert(markup_scan(s@, escape_refs, escape_markers, i0 + 1) == step);
                assert(result@.drop_last() =~= step.0);
                assert(result@ =~= step.0.push(s@[i0 + 1]));
                assert(as_ints(unmatched_open_brackets@) =~= step.1);
            }
        }
    }
    let ghost scanned = result@;
    let ghost opens = as_ints(unmatched_open_brackets@);
    // Escape every `[` that never found its `]`, the last one first so that
    // earlier positions stay valid.
    while unmatched_open_brackets.len() > 0
        invariant
            insert_backslashes(result@, as_ints(unmatched_open_brackets@)) == insert_backslashes(
                scanned,
                opens,
            ),
            forall|j: int|
                0 <= j < unmatched_open_brackets.len() ==> unmatched_open_brackets[j]
                    < result.len(),
        decreases unmatched_open_brackets.len(),
    {
        let ghost before = unmatched_open_brackets@;
        let pos = unmatched_open_brackets.pop().unwrap();
        proof {
            assert(as_ints(unmatched_open_brackets@) == as_ints(before).drop_last());
            assert(as_ints(before).last() == pos as int);
        }
        result.insert(pos, '\\');
    }
    proof {
        assert(as_ints(unmatched_open_brackets@) =~= Seq::<int>::empty());
    }
    // An odd run of trailing backslashes would escape the caller's closing `]`.
    let trailing = count_trailing_backslashes(&result);
    if trailing % 2 != 0 {
        result.push(' ');
    }
    result
}

/// Chooses between the first escaping of `s` and the one with every
/// non-literal emphasis marker escaped, given whether Typst's parser rejected
/// the first one inside a `#diff-added[...]` call.
pub fn settle_escape(s: &Vec<char>, escape_refs: bool, first: Vec<char>, first_erroneous: bool) -> (r:
    Vec<char>)
    ensures
        r@ == (if first_erroneous {
            escape_markup_spec(s@, escape_refs, true)
        } else {
            first@
        }),
{
    if first_erroneous {
        escape_markup(s, escape_refs, true)
    } else {
        first
    }
}

/// Escape content so it can safely be placed inside a Typst content block `[...]`.
pub fn escape_content_chars(s: &Vec<char>, escape_refs: bool) -> (r: Vec<char>)
    ensures
        r@ == escape_content_spec(s@, escape_refs),
{
    let first = escape_markup(s, escape_refs, false);
    // Whether the remaining `*`/`_` pair up is decided by Typst's markup
    // grammar, so Typst's own parser judges it.
    let mut probe: Vec<char> = Vec::new();
    push_str(&mut probe, "#diff-added[");
    push_chars(&mut probe, &first);
    probe.push(']');
    proof {
        assert(probe@ == added_call_probe(first@));
    }
    let erroneous = markup_is_erroneous(&probe);
    settle_escape(s, escape_refs, first, erroneous)
}

/// Escape content so it can safely be placed inside a Typst content block `[...]`.
///
/// - Balanced `[...]` pairs are left untouched; an unbalanced `]` or `[` is escaped.
/// - Emphasis markers (`*`/`_`) that would not pair up inside the block are escaped.
/// - Backslash escapes already in the source are passed through as-is.
/// - If the content ends with an odd number of backslashes, a space is appended.
/// - When `escape_refs` is true, `@` becomes `\@` and `<` becomes `\<`, except
///   for the label argument of `#ref(<label>, ...)`.
pub fn escape_content(s: &str, escape_refs: bool) -> (r: String)
    ensures
        r@ == escape_content_spec(s@, escape_refs),
{
    let chars = chars_of(s);
    let escaped = escape_content_chars(&chars, escape_refs);
    string_of(&escaped)
}

} // verus!
