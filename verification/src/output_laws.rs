//! What the renderer writes for each kind of change, stated with the literal
//! text of the calls, the numerals and the comments it writes.
use vstd::prelude::*;

use crate::backslash_laws::{gains_backslash, unescaped_char};
use crate::escape::{escape_content_spec, escaped_at};
use crate::escape_laws::{at_signs_escaped, law_deleted_refs_suppressed};
use crate::label::{is_label_only_spec, label_end_spec, label_id_valid};
use crate::model::{Block, BlockKind, DiffResult, DiffSpan, SpanTag};
use crate::render::{
    call_open, commented_lines, drop_final_newline, enum_prefix, heading_prefix, kind_prefix,
    marked_call,
    render_marked, render_spans_spec, span_step, spans_render, stray_brackets_spec,
};
use crate::render_laws::{result_piece, starts_with};
use crate::spans_laws::positions_fit;
use crate::stray_laws::{law_unchanged_text_backslashes, stray_escaped_prefix};
use crate::text::{
    decimal, digit_char, find_from, lemma_find_from, lines_spec, trim_end_spec, trim_spec,
    trim_start_spec, white_space,
};

verus! {

// ---------------------------------------------------------------------------
// Numerals.

/// Whether `c` is one of the digits `0` to `9`.
pub open spec fn is_digit(c: char) -> bool {
    '0' <= c && c <= '9'
}

/// The number that the digits `d` spell in base 10.
pub open spec fn digits_value(d: Seq<char>) -> int
    decreases d.len(),
{
    if d.len() == 0 {
        0
    } else {
        10 * digits_value(d.drop_last()) + ((d.last() as u32) - ('0' as u32))
    }
}

proof fn lemma_digit_char(x: int)
    requires
        0 <= x < 10,
    ensures
        is_digit(digit_char(x)),
        (digit_char(x) as u32) - ('0' as u32) == x,
        digit_char(x) == '0' <==> x == 0,
{
}

/// `decimal(n)` is the base-10 numeral of `n`: digits only, no leading zero
/// unless `n` is zero, and read back it gives `n`.
pub proof fn law_decimal_numeral(n: nat)
    ensures
        decimal(n).len() > 0,
        forall|k: int| 0 <= k < decimal(n).len() ==> is_digit(#[trigger] decimal(n)[k]),
        decimal(n)[0] == '0' ==> n == 0,
        digits_value(decimal(n)) == n,
    decreases n,
{
    if n < 10 {
        lemma_digit_char(n as int);
        let d = decimal(n);
        assert(d.drop_last() =~= Seq::<char>::empty());
        assert(digits_value(d.drop_last()) == 0);
        assert(digits_value(d) == 10 * digits_value(d.drop_last()) + ((d.last() as u32) - (
        '0' as u32)));
    } else {
        let q = (n / 10) as nat;
        let r = n % 10;
        law_decimal_numeral(q);
        lemma_digit_char(r as int);
        let d = decimal(n);
        assert(d == decimal(q).push(digit_char(r as int)));
        assert(d.drop_last() =~= decimal(q));
        assert(d[0] == decimal(q)[0]);
        assert(n == 10 * q + r);
        assert(digits_value(d) == 10 * digits_value(d.drop_last()) + ((d.last() as u32) - (
        '0' as u32)));
        assert forall|k: int| 0 <= k < d.len() implies is_digit(#[trigger] d[k]) by {
            if k < decimal(q).len() {
                assert(d[k] == decimal(q)[k]);
            }
        }
    }
}

// ---------------------------------------------------------------------------
// Whole blocks written as added or deleted.

/// `t` in a call that underlines it in blue (added), or strikes it through in
/// red with its references and labels escaped (deleted).
pub open spec fn wrapped(added: bool, t: Seq<char>) -> Seq<char> {
    if added {
        "#diff-added["@ + escape_content_spec(t, false) + seq![']']
    } else {
        "#diff-deleted["@ + escape_content_spec(t, true) + seq![']']
    }
}

/// `depth` equal signs and a space.
pub open spec fn equal_signs(depth: nat) -> Seq<char> {
    Seq::new(depth, |_i: int| '=').push(' ')
}

/// The numeral of an explicit number and `. `, or `+ ` for an automatic one.
pub open spec fn item_number(number: Option<usize>) -> Seq<char> {
    match number {
        Some(n) => decimal(n as nat) + seq!['.', ' '],
        None => seq!['+', ' '],
    }
}

/// The lines `lines`, each after `// `, with a newline between two lines.
pub open spec fn comment_block(lines: Seq<Seq<char>>) -> Seq<char>
    decreases lines.len(),
{
    if lines.len() == 0 {
        seq![]
    } else if lines.len() == 1 {
        seq!['/', '/', ' '] + lines[0]
    } else {
        seq!['/', '/', ' '] + lines[0] + seq!['\n'] + comment_block(lines.drop_first())
    }
}

/// What writing a whole block as added (`added`) or deleted text gives,
/// before the blank line that follows it.
pub open spec fn marked_block_text(b: Block, added: bool) -> Seq<char> {
    match b {
        Block::Paragraph { source_text } => if is_label_only_spec(source_text@) {
            if added {
                trim_spec(source_text@)
            } else {
                seq![]
            }
        } else {
            wrapped(added, source_text@)
        },
        Block::Heading { depth, body_text } => equal_signs(depth as nat) + wrapped(
            added,
            body_text@,
        ),
        Block::ListItem { body_text } => seq!['-', ' '] + wrapped(added, body_text@),
        Block::EnumItem { number, body_text } => item_number(number) + wrapped(added, body_text@),
        Block::TermItem { term, description } => if added {
            seq!['/', ' '] + "#diff-added["@ + escape_content_spec(term@, false) + seq![':', ' ']
                + escape_content_spec(description@, false) + seq![']']
        } else {
            seq!['/', ' '] + "#diff-deleted["@ + escape_content_spec(term@, true) + seq![':', ' ']
                + escape_content_spec(description@, true) + seq![']']
        },
        Block::RawBlock { content } => wrapped(added, content@),
        Block::Equation { content, .. } => wrapped(added, content@),
        Block::FuncCall { content } => if added {
            content@
        } else {
            comment_block(lines_spec(content@))
        },
        Block::Parbreak => seq![],
    }
}

proof fn lemma_commented_lines_shape(lines: Seq<Seq<char>>)
    ensures
        lines.len() == 0 ==> commented_lines(lines).len() == 0,
        lines.len() > 0 ==> commented_lines(lines).len() > 0 && commented_lines(lines).last()
            == '\n',
        drop_final_newline(commented_lines(lines)) == comment_block(lines),
    decreases lines.len(),
{
    reveal_strlit("// ");
    if lines.len() > 0 {
        let rest = lines.drop_first();
        lemma_commented_lines_shape(rest);
        let c = commented_lines(rest);
        let head = "// "@ + lines[0];
        assert(commented_lines(lines) == head + seq!['\n'] + c);
        if rest.len() == 0 {
            assert(head + seq!['\n'] + c =~= head.push('\n'));
            assert(head.push('\n').drop_last() =~= head);
            assert(head =~= seq!['/', '/', ' '] + lines[0]);
        } else {
            assert((head + seq!['\n'] + c).last() == c.last());
            assert((head + seq!['\n'] + c).drop_last() =~= head + seq!['\n'] + c.drop_last());
            assert(head + seq!['\n'] + c.drop_last() =~= seq!['/', '/', ' '] + lines[0] + seq![
                '\n',
            ] + comment_block(rest));
        }
    } else {
        assert(commented_lines(lines) =~= Seq::<char>::empty());
    }
}

proof fn lemma_wrapped(added: bool, t: Seq<char>)
    ensures
        marked_call(added, t) == wrapped(added, t),
{
    reveal_strlit("#diff-added[");
    reveal_strlit("#diff-deleted[");
    reveal_strlit("diff-added");
    reveal_strlit("diff-deleted");
    assert(marked_call(added, t) =~= wrapped(added, t));
}

proof fn lemma_marked_text(b: Block, added: bool)
    ensures
        render_marked(seq![], b, added) == marked_block_text(b, added),
{
    let e = Seq::<char>::empty();
    match b {
        Block::Paragraph { source_text } => {
            lemma_wrapped(added, source_text@);
            assert(e + trim_spec(source_text@) =~= trim_spec(source_text@));
            assert(e + marked_call(added, source_text@) =~= marked_call(added, source_text@));
        },
        Block::Heading { depth, body_text } => {
            lemma_wrapped(added, body_text@);
            assert(heading_prefix(depth as nat) =~= equal_signs(depth as nat));
            assert(e + heading_prefix(depth as nat) + marked_call(added, body_text@) =~= equal_signs(
                depth as nat,
            ) + wrapped(added, body_text@));
        },
        Block::ListItem { body_text } => {
            reveal_strlit("- ");
            lemma_wrapped(added, body_text@);
            assert(e + "- "@ + marked_call(added, body_text@) =~= seq!['-', ' '] + wrapped(
                added,
                body_text@,
            ));
        },
        Block::EnumItem { number, body_text } => {
            reveal_strlit(". ");
            reveal_strlit("+ ");
            lemma_wrapped(added, body_text@);
            assert(enum_prefix(number) =~= item_number(number));
            assert(e + enum_prefix(number) + marked_call(added, body_text@) =~= item_number(number)
                + wrapped(added, body_text@));
        },
        Block::TermItem { term, description } => {
            reveal_strlit("/ ");
            reveal_strlit(": ");
            reveal_strlit("#diff-added[");
            reveal_strlit("#diff-deleted[");
            reveal_strlit("diff-added");
            reveal_strlit("diff-deleted");
            assert(e + "/ "@ + call_open(added) + escape_content_spec(term@, !added) + ": "@
                + escape_content_spec(description@, !added) + seq![']'] =~= marked_block_text(
                b,
                added,
            ));
        },
        Block::RawBlock { content } => {
            lemma_wrapped(added, content@);
            assert(e + marked_call(added, content@) =~= marked_call(added, content@));
        },
        Block::Equation { content, .. } => {
            lemma_wrapped(added, content@);
            assert(e + marked_call(added, content@) =~= marked_call(added, content@));
        },
        Block::FuncCall { content } => {
            lemma_commented_lines_shape(lines_spec(content@));
            let c = drop_final_newline(commented_lines(lines_spec(content@)));
            assert(e + content@ =~= content@);
            assert(e + c =~= c);
        },
        Block::Parbreak => {},
    }
}

/// Writing a whole block as added or deleted text appends exactly
/// `marked_block_text`, then a blank line. In particular a deleted block is
/// struck through in a `#diff-deleted[...]` call with its references and
/// labels escaped, never underlined; an explicit item number is written as its
/// numeral; and deleted code is commented out line by line with `// `,
/// whatever the number of its lines.
pub proof fn law_marked_blocks(b: Block, added: bool)
    ensures
        result_piece(
            if added {
                DiffResult::Added(b)
            } else {
                DiffResult::Deleted(b)
            },
        ) == marked_block_text(b, added) + seq!['\n', '\n'],
{
    lemma_marked_text(b, added);
}

// ---------------------------------------------------------------------------
// Spans of a modified block.

/// The first `j` spans of a modified block as written.
pub open spec fn spans_written(spans: Seq<DiffSpan>, j: int) -> Seq<char> {
    spans_render(spans, stray_brackets_spec(spans), j).0
}

proof fn lemma_step_appends(
    spans: Seq<DiffSpan>,
    st: Seq<(usize, usize)>,
    a: (Seq<char>, bool),
    i: int,
)
    requires
        0 <= i < spans.len(),
    ensures
        starts_with(span_step(spans, st, a, i).0, a.0),
{
    let b = span_step(spans, st, a, i).0;
    assert(b.take(a.0.len() as int) =~= a.0);
}

proof fn lemma_written_grows(spans: Seq<DiffSpan>, j: int, n: int)
    requires
        0 <= j <= n <= spans.len(),
    ensures
        starts_with(spans_written(spans, n), spans_written(spans, j)),
    decreases n - j,
{
    let w = spans_written(spans, j);
    if j < n {
        lemma_written_grows(spans, j, n - 1);
        let st = stray_brackets_spec(spans);
        let a = spans_render(spans, st, n - 1);
        assert(spans_render(spans, st, n) == span_step(spans, st, a, n - 1));
        lemma_step_appends(spans, st, a, n - 1);
        let b = spans_written(spans, n);
        assert(b.take(w.len() as int) =~= b.take(a.0.len() as int).take(w.len() as int));
    } else {
        assert(w.take(w.len() as int) =~= w);
    }
}

/// In a modified block, a deleted span that is not a bare label is written
/// as a `#diff-deleted[...]` call of its text with every `@` escaped (and
/// every `<` that is not the label argument of `#ref(...)`); an added span
/// that is not a bare label as a `#diff-added[...]` call of its text with
/// references left live; a deleted bare label not at all, and an added one as
/// it is. What comes before is kept, and the whole block goes on from there.
pub proof fn law_changed_spans(spans: Seq<DiffSpan>, j: int)
    requires
        0 <= j < spans.len(),
        spans[j].tag != SpanTag::Equal,
        spans[j].text@.len() > 0,
    ensures
        starts_with(render_spans_spec(spans), spans_written(spans, j + 1)),
        ({
            let t = spans[j].text@;
            let before = spans_written(spans, j);
            let after = spans_written(spans, j + 1);
            if spans[j].tag == SpanTag::Deleted {
                if is_label_only_spec(t) {
                    after == before
                } else {
                    &&& after == before + "#diff-deleted["@ + escape_content_spec(t, true)
                        + seq![']']
                    &&& at_signs_escaped(escape_content_spec(t, true))
                }
            } else {
                if is_label_only_spec(t) {
                    after == before + t
                } else {
                    after == before + "#diff-added["@ + escape_content_spec(t, false) + seq![']']
                }
            }
        }),
{
    lemma_written_grows(spans, j + 1, spans.len() as int);
    law_deleted_refs_suppressed(spans[j].text@);
    let st = stray_brackets_spec(spans);
    assert(spans_render(spans, st, j + 1) == span_step(spans, st, spans_render(spans, st, j), j));
}

// ---------------------------------------------------------------------------
// The label argument of `#ref(...)`.

/// With references escaped, a `<` that starts a label literal whose text
/// before it, whitespace aside, ends in `#ref` and `(` gains no backslash,
/// whatever follows the label; any other unescaped `<` gains one.
pub proof fn law_ref_label_argument(s: Seq<char>, escape_markers: bool, i: int)
    requires
        0 <= i < s.len(),
        s[i] == '<',
        unescaped_char(s, i),
    ensures
        ({
            let b = trim_end_spec(s.take(i));
            let p = trim_end_spec(b.drop_last());
            let call_arg = label_end_spec(s.skip(i)) is Some && b.len() > 0 && b.last() == '('
                && p.len() >= 4 && p.subrange(p.len() - 4, p.len() as int) == "#ref"@;
            gains_backslash(s, true, escape_markers, i) <==> !call_arg
        }),
{
    reveal_strlit("#ref");
    let b = trim_end_spec(s.take(i));
    let p = trim_end_spec(b.drop_last());
    if p.len() >= 4 {
        let q = p.subrange(p.len() - 4, p.len() as int);
        assert(q[0] == p[p.len() - 4]);
        assert(q[1] == p[p.len() - 3]);
        assert(q[2] == p[p.len() - 2]);
        assert(q[3] == p[p.len() - 1]);
        if p[p.len() - 4] == '#' && p[p.len() - 3] == 'r' && p[p.len() - 2] == 'e' && p[p.len()
            - 1] == 'f' {
            assert(q =~= "#ref"@);
        }
    }
}

// ---------------------------------------------------------------------------
// Unchanged blocks, modified blocks and unchanged spans.

/// What writing a block back unchanged gives, before its blank line.
pub open spec fn unchanged_block_text(b: Block) -> Seq<char> {
    match b {
        Block::Paragraph { source_text } => source_text@,
        Block::Heading { depth, body_text } => equal_signs(depth as nat) + body_text@,
        Block::ListItem { body_text } => seq!['-', ' '] + body_text@,
        Block::EnumItem { number, body_text } => item_number(number) + body_text@,
        Block::TermItem { term, description } => seq!['/', ' '] + term@ + seq![':', ' ']
            + description@,
        Block::RawBlock { content } => content@,
        Block::Equation { content, .. } => content@,
        Block::FuncCall { content } => content@,
        Block::Parbreak => seq![],
    }
}

/// The prefix of a modified block of kind `kind`, as written in the source.
pub open spec fn modified_prefix(kind: BlockKind) -> Seq<char> {
    match kind {
        BlockKind::Heading { depth } => equal_signs(depth as nat),
        BlockKind::ListItem => seq!['-', ' '],
        BlockKind::EnumItem { number } => item_number(number),
        BlockKind::TermItem => seq!['/', ' '],
        _ => seq![],
    }
}

/// An unchanged block is written back as it stands in the source (its
/// heading, list, number or term markup written out), then a blank line; a
/// modified block is its prefix, then its spans, then a blank line.
pub proof fn law_unchanged_and_modified_blocks(b: Block, kind: BlockKind, spans: Vec<DiffSpan>)
    ensures
        result_piece(DiffResult::Unchanged(b)) == unchanged_block_text(b) + seq!['\n', '\n'],
        result_piece(DiffResult::Modified { kind, spans }) == modified_prefix(kind)
            + render_spans_spec(spans@) + seq!['\n', '\n'],
{
    reveal_strlit("- ");
    reveal_strlit("/ ");
    reveal_strlit(": ");
    reveal_strlit(". ");
    reveal_strlit("+ ");
    match b {
        Block::Heading { depth, body_text } => {
            assert(heading_prefix(depth as nat) =~= equal_signs(depth as nat));
        },
        Block::EnumItem { number, body_text } => {
            assert(enum_prefix(number) =~= item_number(number));
        },
        _ => {},
    }
    assert(result_piece(DiffResult::Unchanged(b)) =~= unchanged_block_text(b) + seq!['\n', '\n']);
    match kind {
        BlockKind::Heading { depth } => {
            assert(heading_prefix(depth as nat) =~= equal_signs(depth as nat));
        },
        BlockKind::EnumItem { number } => {
            assert(enum_prefix(number) =~= item_number(number));
        },
        _ => {},
    }
    assert(kind_prefix(kind) =~= modified_prefix(kind));
    assert(result_piece(DiffResult::Modified { kind, spans }) =~= modified_prefix(kind)
        + render_spans_spec(spans@) + seq!['\n', '\n']);
}

/// Whether span `sp` writes anything: it is not empty, and not a deleted bare label.
pub open spec fn writes_text(sp: DiffSpan) -> bool {
    sp.text@.len() > 0 && !(sp.tag == SpanTag::Deleted && is_label_only_spec(sp.text@))
}

/// Whether span `sp` is written as a diff call: a change that is not a bare label.
pub open spec fn writes_call(sp: DiffSpan) -> bool {
    sp.text@.len() > 0 && sp.tag != SpanTag::Equal && !is_label_only_spec(sp.text@)
}

/// Whether the last of the first `j` spans that writes anything writes a diff call.
pub open spec fn last_written_is_call(spans: Seq<DiffSpan>, j: int) -> bool
    decreases j,
{
    if j <= 0 {
        false
    } else if writes_text(spans[j - 1]) {
        writes_call(spans[j - 1])
    } else {
        last_written_is_call(spans, j - 1)
    }
}

proof fn lemma_last_written(spans: Seq<DiffSpan>, st: Seq<(usize, usize)>, j: int)
    requires
        0 <= j <= spans.len(),
    ensures
        spans_render(spans, st, j).1 == last_written_is_call(spans, j),
    decreases j,
{
    if j > 0 {
        lemma_last_written(spans, st, j - 1);
    }
}

/// In a modified block, unchanged text is written with a backslash before
/// exactly its stray brackets, after a zero-width space when it starts with
/// `(` or `[` right after a diff call (so the call does not take it as its
/// arguments), and after nothing otherwise.
pub proof fn law_unchanged_span(spans: Seq<DiffSpan>, j: int)
    requires
        positions_fit(spans),
        0 <= j < spans.len(),
        spans[j].tag == SpanTag::Equal,
        spans[j].text@.len() > 0,
    ensures
        starts_with(render_spans_spec(spans), spans_written(spans, j + 1)),
        ({
            let t = spans[j].text@;
            let guard = if last_written_is_call(spans, j) && (t[0] == '(' || t[0] == '[') {
                seq!['\u{200B}']
            } else {
                seq![]
            };
            spans_written(spans, j + 1) == spans_written(spans, j) + guard + stray_escaped_prefix(
                spans,
                j,
                t.len() as int,
            )
        }),
{
    lemma_written_grows(spans, j + 1, spans.len() as int);
    let st = stray_brackets_spec(spans);
    lemma_last_written(spans, st, j);
    law_unchanged_text_backslashes(spans, j);
    assert(spans_render(spans, st, j + 1) == span_step(spans, st, spans_render(spans, st, j), j));
}

// ---------------------------------------------------------------------------
// Bare labels.

proof fn lemma_trim_end_at(t: Seq<char>, b: int)
    requires
        0 < b <= t.len(),
        !white_space(t[b - 1]),
        forall|k: int| b <= k < t.len() ==> white_space(#[trigger] t[k]),
    ensures
        trim_end_spec(t) == t.take(b),
    decreases t.len(),
{
    if b < t.len() {
        let d = t.drop_last();
        assert forall|k: int| b <= k < d.len() implies white_space(#[trigger] d[k]) by {
            assert(d[k] == t[k]);
        }
        assert(d[b - 1] == t[b - 1]);
        lemma_trim_end_at(d, b);
        assert(d.take(b) =~= t.take(b));
    } else {
        assert(t.take(b) =~= t);
    }
}

proof fn lemma_trim_start_at(t: Seq<char>, a: int)
    requires
        0 <= a < t.len(),
        !white_space(t[a]),
        forall|k: int| 0 <= k < a ==> white_space(#[trigger] t[k]),
    ensures
        trim_start_spec(t) == t.skip(a),
    decreases a,
{
    if a > 0 {
        let d = t.drop_first();
        assert forall|k: int| 0 <= k < a - 1 implies white_space(#[trigger] d[k]) by {
            assert(d[k] == t[k + 1]);
        }
        assert(t[0] == t[0]);
        assert(white_space(t[0]));
        lemma_trim_start_at(d, a - 1);
        assert(d.skip(a - 1) =~= t.skip(a));
    } else {
        assert(t.skip(0) =~= t);
    }
}

/// A text made of whitespace, then `<`, a name and `>`, then whitespace, is a
/// bare label exactly when the name holds no `>` and is a valid label name.
pub proof fn law_bare_label(t: Seq<char>, a: int, b: int)
    requires
        0 <= a,
        a + 2 <= b <= t.len(),
        forall|k: int| 0 <= k < a ==> white_space(#[trigger] t[k]),
        forall|k: int| b <= k < t.len() ==> white_space(#[trigger] t[k]),
        t[a] == '<',
        t[b - 1] == '>',
    ensures
        is_label_only_spec(t) <==> ((forall|k: int| a < k < b - 1 ==> #[trigger] t[k] != '>')
            && label_id_valid(t.subrange(a + 1, b - 1))),
{
    let u = t.subrange(a, b);
    lemma_trim_end_at(t, b);
    let e = t.take(b);
    assert forall|k: int| 0 <= k < a implies white_space(#[trigger] e[k]) by {
        assert(e[k] == t[k]);
    }
    assert(e[a] == '<');
    lemma_trim_start_at(e, a);
    assert(e.skip(a) =~= u);
    assert(trim_spec(t) == u);
    lemma_find_from(u, '>', 1);
    let k = find_from(u, '>', 1);
    assert(u.subrange(1, u.len() - 1) =~= t.subrange(a + 1, b - 1));
    if forall|q: int| a < q < b - 1 ==> #[trigger] t[q] != '>' {
        assert forall|q: int| 1 <= q < u.len() - 1 implies u[q] != '>' by {
            assert(u[q] == t[a + q]);
        }
        if k < u.len() - 1 {
            assert(u[k] == '>');
            assert(false);
        }
        assert(u[u.len() - 1] == '>');
        assert(k == u.len() - 1);
    } else {
        let q = choose|q: int| a < q < b - 1 && #[trigger] t[q] == '>';
        assert(u[q - a] == '>');
        assert(k <= q - a);
    }
}

} // verus!
