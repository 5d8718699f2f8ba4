//! Turning diff results into a compilable Typst document.
use vstd::prelude::*;

use crate::escape::{escape_content_chars, escape_content_spec, escaped_at};
use crate::label::{is_label_only_spec, TypstLabel};
use crate::model::{Block, BlockKind, DiffResult, DiffSpan, SpanTag};
use crate::text::{
    chars_of, decimal, find_char, lemma_find_from, lines_from, lines_spec, push_chars,
    push_decimal, push_str, string_of, sub_chars, trim, trim_spec,
};

verus! {

/// The definitions of `diff-added` (blue, underlined) and `diff-deleted`
/// (red, struck through) that every rendered document starts with.
pub const PREAMBLE: &'static str = "#let diff-added(body) = {\n  set text(fill: rgb(\"#0000ff\"))\n  underline(body)\n}\n#let diff-deleted(body) = {\n  set text(fill: rgb(\"#cc0000\"))\n  strike(body)\n}\n";

// ---------------------------------------------------------------------------
// What the renderer writes, stated over character sequences.
// ---------------------------------------------------------------------------
/// `= `, `== `, ...: `depth` equals signs and a space.
pub open spec fn heading_prefix(depth: nat) -> Seq<char> {
    Seq::new(depth, |_i: int| '=').push(' ')
}

/// `+ ` for an automatically numbered item, `n. ` for an explicit number.
pub open spec fn enum_prefix(number: Option<usize>) -> Seq<char> {
    match number {
        Some(n) => decimal(n as nat) + ". "@,
        None => "+ "@,
    }
}

/// A block written back unchanged.
pub open spec fn block_text(b: Block) -> Seq<char> {
    match b {
        Block::Paragraph { source_text } => source_text@,
        Block::Heading { depth, body_text } => heading_prefix(depth as nat) + body_text@,
        Block::ListItem { body_text } => "- "@ + body_text@,
        Block::EnumItem { number, body_text } => enum_prefix(number) + body_text@,
        Block::TermItem { term, description } => "/ "@ + term@ + ": "@ + description@,
        Block::RawBlock { content } => content@,
        Block::Equation { content, .. } => content@,
        Block::FuncCall { content } => content@,
        Block::Parbreak => seq![],
    }
}

/// The name of the marking function: `diff-added` or `diff-deleted`.
pub open spec fn func_name_spec(added: bool) -> Seq<char> {
    if added {
        "diff-added"@
    } else {
        "diff-deleted"@
    }
}

/// `#func[` for the marking function.
pub open spec fn call_open(added: bool) -> Seq<char> {
    seq!['#'] + func_name_spec(added) + seq!['[']
}

/// `text` escaped and wrapped in a call of the marking function; deleted
/// text has its references and labels escaped too.
pub open spec fn marked_call(added: bool, text: Seq<char>) -> Seq<char> {
    call_open(added) + escape_content_spec(text, !added) + seq![']']
}

/// Each line written as a `// ` comment followed by a newline.
pub open spec fn commented_lines(lines: Seq<Seq<char>>) -> Seq<char>
    decreases lines.len(),
{
    if lines.len() == 0 {
        seq![]
    } else {
        "// "@ + lines[0] + seq!['\n'] + commented_lines(lines.drop_first())
    }
}

/// `t` without its last character when that is a newline.
pub open spec fn drop_final_newline(t: Seq<char>) -> Seq<char> {
    if t.len() > 0 && t.last() == '\n' {
        t.drop_last()
    } else {
        t
    }
}

/// `out` after a whole block is written as added (`added`) or deleted text.
/// A paragraph that is only a label stays bare (and is dropped when deleted);
/// added code is written as it is and deleted code as comments, without the
/// newline after the last one.
pub open spec fn render_marked(out: Seq<char>, b: Block, added: bool) -> Seq<char> {
    match b {
        Block::Paragraph { source_text } => if is_label_only_spec(source_text@) {
            if added {
                out + trim_spec(source_text@)
            } else {
                out
            }
        } else {
            out + marked_call(added, source_text@)
        },
        Block::Heading { depth, body_text } => out + heading_prefix(depth as nat) + marked_call(
            added,
            body_text@,
        ),
        Block::ListItem { body_text } => out + "- "@ + marked_call(added, body_text@),
        Block::EnumItem { number, body_text } => out + enum_prefix(number) + marked_call(
            added,
            body_text@,
        ),
        Block::TermItem { term, description } => out + "/ "@ + call_open(added)
            + escape_content_spec(term@, !added) + ": "@ + escape_content_spec(description@, !added)
            + seq![']'],
        Block::RawBlock { content } => out + marked_call(added, content@),
        Block::Equation { content, .. } => out + marked_call(added, content@),
        Block::FuncCall { content } => if added {
            out + content@
        } else {
            out + drop_final_newline(commented_lines(lines_spec(content@)))
        },
        Block::Parbreak => out,
    }
}

/// The prefix written before the spans of a modified block.
pub open spec fn kind_prefix(kind: BlockKind) -> Seq<char> {
    match kind {
        BlockKind::Heading { depth } => heading_prefix(depth as nat),
        BlockKind::ListItem => "- "@,
        BlockKind::EnumItem { number } => enum_prefix(number),
        BlockKind::TermItem => "/ "@,
        _ => seq![],
    }
}

/// Whether `(span, offset)` is listed in `stray`.
pub open spec fn stray_has(stray: Seq<(usize, usize)>, span: int, offset: int) -> bool {
    exists|j: int| 0 <= j < stray.len() && stray[j].0 == span && stray[j].1 == offset
}

/// One step of the bracket scan at `text[k]` of span `i`: `open` holds the
/// unmatched `[` seen so far in unchanged text, `stray` the `]` that found none.
pub open spec fn bracket_step(
    text: Seq<char>,
    i: int,
    stray: Seq<(usize, usize)>,
    open: Seq<(usize, usize)>,
    k: int,
) -> (Seq<(usize, usize)>, Seq<(usize, usize)>) {
    let c = text[k];
    if escaped_at(text, k) || (c != '[' && c != ']') {
        (stray, open)
    } else if c == '[' {
        (stray, open.push((i as usize, k as usize)))
    } else if open.len() > 0 {
        (stray, open.drop_last())
    } else {
        (stray.push((i as usize, k as usize)), open)
    }
}

/// The bracket scan over the first `n` characters of `text` (span `i`), from `st`.
pub open spec fn text_bracket_scan(
    text: Seq<char>,
    i: int,
    st: (Seq<(usize, usize)>, Seq<(usize, usize)>),
    n: int,
) -> (Seq<(usize, usize)>, Seq<(usize, usize)>)
    decreases n,
{
    if n <= 0 {
        st
    } else {
        let p = text_bracket_scan(text, i, st, n - 1);
        bracket_step(text, i, p.0, p.1, n - 1)
    }
}

/// The bracket scan over the unchanged text of the first `m` spans.
pub open spec fn spans_bracket_scan(spans: Seq<DiffSpan>, m: int) -> (
    Seq<(usize, usize)>,
    Seq<(usize, usize)>,
)
    decreases m,
{
    if m <= 0 {
        (seq![], seq![])
    } else {
        let p = spans_bracket_scan(spans, m - 1);
        let span = spans[m - 1];
        if span.tag == SpanTag::Equal {
            text_bracket_scan(span.text@, m - 1, p, span.text@.len() as int)
        } else {
            p
        }
    }
}

/// `(span, offset)` of every bracket in unchanged text that nothing balances:
/// the `]` that found no `[` before them, then the `[` that found no `]`.
pub open spec fn stray_brackets_spec(spans: Seq<DiffSpan>) -> Seq<(usize, usize)> {
    let p = spans_bracket_scan(spans, spans.len() as int);
    p.0 + p.1
}

/// One step of writing unchanged text at `text[k]`: stray brackets escaped,
/// existing escape sequences copied whole.
pub open spec fn equal_step(
    text: Seq<char>,
    i: int,
    stray: Seq<(usize, usize)>,
    res: Seq<char>,
    k: int,
) -> Seq<char> {
    let c = text[k];
    if escaped_at(text, k) || c == '\\' {
        res.push(c)
    } else if (c == '[' || c == ']') && stray_has(stray, i, k) {
        res.push('\\').push(c)
    } else {
        res.push(c)
    }
}

/// Unchanged text of span `i`, its first `n` characters written.
pub open spec fn equal_text_prefix(text: Seq<char>, i: int, stray: Seq<(usize, usize)>, n: int) -> Seq<
    char,
>
    decreases n,
{
    if n <= 0 {
        seq![]
    } else {
        equal_step(text, i, stray, equal_text_prefix(text, i, stray, n - 1), n - 1)
    }
}

/// Unchanged text of span `i` as written, stray brackets escaped.
pub open spec fn equal_text_spec(text: Seq<char>, i: int, stray: Seq<(usize, usize)>) -> Seq<char> {
    equal_text_prefix(text, i, stray, text.len() as int)
}

/// The zero-width space that keeps a `(` or `[` after a diff call from being
/// read as that call's arguments.
pub open spec fn call_guard(prev_was_diff: bool, text: Seq<char>) -> Seq<char> {
    if prev_was_diff && text.len() > 0 && (text[0] == '(' || text[0] == '[') {
        seq!['\u{200B}']
    } else {
        seq![]
    }
}

/// Writing span `i` after `st` = (text so far, whether the last thing written was a diff call).
pub open spec fn span_step(
    spans: Seq<DiffSpan>,
    stray: Seq<(usize, usize)>,
    st: (Seq<char>, bool),
    i: int,
) -> (Seq<char>, bool) {
    let t = spans[i].text@;
    if t.len() == 0 {
        st
    } else {
        match spans[i].tag {
            SpanTag::Equal => (st.0 + call_guard(st.1, t) + equal_text_spec(t, i, stray), false),
            SpanTag::Deleted => if is_label_only_spec(t) {
                st
            } else {
                (st.0 + "#diff-deleted["@ + escape_content_spec(t, true) + seq![']'], true)
            },
            SpanTag::Inserted => if is_label_only_spec(t) {
                (st.0 + t, false)
            } else {
                (st.0 + "#diff-added["@ + escape_content_spec(t, false) + seq![']'], true)
            },
        }
    }
}

/// The first `n` spans written.
pub open spec fn spans_render(spans: Seq<DiffSpan>, stray: Seq<(usize, usize)>, n: int) -> (
    Seq<char>,
    bool,
)
    decreases n,
{
    if n <= 0 {
        (seq![], false)
    } else {
        span_step(spans, stray, spans_render(spans, stray, n - 1), n - 1)
    }
}

/// The spans of a modified block as written.
pub open spec fn render_spans_spec(spans: Seq<DiffSpan>) -> Seq<char> {
    spans_render(spans, stray_brackets_spec(spans), spans.len() as int).0
}

/// `out` after one diff result is written, with its newline and the blank
/// line that ends it.
pub open spec fn render_result(out: Seq<char>, r: DiffResult) -> Seq<char> {
    match r {
        DiffResult::Unchanged(b) => out + block_text(b) + seq!['\n', '\n'],
        DiffResult::Added(b) => render_marked(out, b, true) + seq!['\n', '\n'],
        DiffResult::Deleted(b) => render_marked(out, b, false) + seq!['\n', '\n'],
        DiffResult::Modified { kind, spans } => out + kind_prefix(kind) + render_spans_spec(spans@)
            + seq!['\n', '\n'],
    }
}

/// The document after the preamble and the first `n` results.
pub open spec fn render_prefix(results: Seq<DiffResult>, n: int) -> Seq<char>
    decreases n,
{
    if n <= 0 {
        PREAMBLE@ + seq!['\n']
    } else {
        render_result(render_prefix(results, n - 1), results[n - 1])
    }
}

/// The rendered document.
pub open spec fn render_spec(results: Seq<DiffResult>) -> Seq<char> {
    render_prefix(results, results.len() as int)
}

// ---------------------------------------------------------------------------
// The renderer.
// ---------------------------------------------------------------------------
/// Render a list of diff results into a compilable Typst source string.
pub fn render(results: &[DiffResult]) -> (r: String)
    ensures
        r@ == render_spec(results@),
{
    let mut out: Vec<char> = Vec::new();
    push_str(&mut out, PREAMBLE);
    out.push('\n');
    let n = results.len();
    for i in 0..n
        invariant
            n == results@.len(),
            out@ == render_prefix(results@, i as int),
    {
        let result = &results[i];
        match result {
            DiffResult::Unchanged(block) => {
                render_block(block, &mut out);
                out.push('\n');
            },
            DiffResult::Added(block) => {
                render_added_or_deleted(block, DiffTag::Added, &mut out);
                out.push('\n');
            },
            DiffResult::Deleted(block) => {
                render_added_or_deleted(block, DiffTag::Deleted, &mut out);
                out.push('\n');
            },
            DiffResult::Modified { kind, spans } => {
                render_modified(kind, spans, &mut out);
                out.push('\n');
            },
        }
        // Always add a blank line between blocks (paragraph break).
        out.push('\n');
        proof {
            assert(out@ =~= render_result(render_prefix(results@, i as int), results@[i as int]));
        }
    }
    string_of(&out)
}

#[derive(Clone, Copy, PartialEq, Eq, Structural)]
enum DiffTag {
    Added,
    Deleted,
}

impl DiffTag {
    fn func_name(self) -> (r: &'static str)
        ensures
            r@ == func_name_spec(self == DiffTag::Added),
    {
        match self {
            DiffTag::Added => "diff-added",
            DiffTag::Deleted => "diff-deleted",
        }
    }
}

/// Render a block unchanged.
fn render_block(block: &Block, out: &mut Vec<char>)
    ensures
        final(out)@ == old(out)@ + block_text(*block),
{
    match block {
        Block::Paragraph { source_text } => push_str(out, source_text.as_str()),
        Block::Heading { depth, body_text } => {
            write_heading_prefix(*depth, out);
            push_str(out, body_text.as_str());
        },
        Block::ListItem { body_text } => {
            push_str(out, "- ");
            push_str(out, body_text.as_str());
        },
        Block::EnumItem { number, body_text } => {
            write_enum_prefix(*number, out);
            push_str(out, body_text.as_str());
        },
        Block::TermItem { term, description } => {
            push_str(out, "/ ");
            push_str(out, term.as_str());
            push_str(out, ": ");
            push_str(out, description.as_str());
        },
        Block::RawBlock { content } => push_str(out, content.as_str()),
        Block::Equation { content, .. } => push_str(out, content.as_str()),
        Block::FuncCall { content } => push_str(out, content.as_str()),
        Block::Parbreak => {},  // newline added by caller
    }
}

/// Returns true if the text consists only of a Typst label `<...>`.
pub fn is_label_only(text: &str) -> (r: bool)
    ensures
        r == is_label_only_spec(text@),
{
    TypstLabel::is_only(text)
}

/// Writes `text` escaped inside a call of `func`.
fn write_marked_call(func: &str, text: &str, escape_refs: bool, out: &mut Vec<char>)
    ensures
        final(out)@ == old(out)@ + seq!['#'] + func@ + seq!['['] + escape_content_spec(
            text@,
            escape_refs,
        ) + seq![']'],
{
    out.push('#');
    push_str(out, func);
    out.push('[');
    let escaped = escape_content_chars(&chars_of(text), escape_refs);
    push_chars(out, &escaped);
    out.push(']');
}

/// Writes each line of `content` as a `// ` comment, without the newline
/// after the last one (the caller adds one).
fn write_commented_lines(content: &str, out: &mut Vec<char>)
    ensures
        final(out)@ == old(out)@ + drop_final_newline(commented_lines(lines_spec(content@))),
{
    let start = out.len();
    let chars = chars_of(content);
    let n = chars.len();
    let mut pos: usize = 0;
    while pos < n
        invariant
            n == chars@.len(),
            pos <= n,
            out@ + commented_lines(lines_from(chars@, pos as int)) == old(out)@ + commented_lines(
                lines_from(chars@, 0),
            ),
        decreases n - pos,
    {
        let ghost before = out@;
        let k = find_char(&chars, '\n', pos);
        proof {
            lemma_find_from(chars@, '\n', pos as int);
        }
        let mut end = k;
        if k < n && end > pos && chars[end - 1] == '\r' {
            end -= 1;
        }
        let line = sub_chars(&chars, pos, end);
        push_str(out, "// ");
        push_chars(out, &line);
        out.push('\n');
        let ghost ls = lines_from(chars@, pos as int);
        let next = if k < n {
            k + 1
        } else {
            n
        };
        proof {
            let raw = chars@.subrange(pos as int, k as int);
            if k < n && raw.len() > 0 && raw.last() == '\r' {
                assert(line@ =~= raw.drop_last());
            } else {
                assert(line@ =~= raw);
            }
            assert(ls[0] == line@);
            assert(ls.drop_first() =~= lines_from(chars@, next as int));
            assert(out@ =~= before + ("// "@ + ls[0] + seq!['\n']));
            assert(commented_lines(ls) =~= ("// "@ + ls[0] + seq!['\n']) + commented_lines(
                ls.drop_first(),
            ));
        }
        pos = next;
    }
    // Remove the trailing newline written after the last line, since the
    // caller adds one.
    let ghost c = commented_lines(lines_spec(content@));
    proof {
        assert(commented_lines(lines_from(chars@, pos as int)) =~= Seq::<char>::empty());
        assert(out@ =~= old(out)@ + c);
    }
    if out.len() > start && out[out.len() - 1] == '\n' {
        out.pop();
        proof {
            assert(c.last() == '\n');
            assert(out@ =~= old(out)@ + c.drop_last());
        }
    }
}

/// A paragraph written as added or deleted text; a paragraph that is only a
/// label stays bare when added and is dropped when deleted.
fn write_marked_paragraph(source_text: &str, tag: DiffTag, out: &mut Vec<char>)
    ensures
        final(out)@ == (if is_label_only_spec(source_text@) {
            if tag == DiffTag::Added {
                old(out)@ + trim_spec(source_text@)
            } else {
                old(out)@
            }
        } else {
            old(out)@ + marked_call(tag == DiffTag::Added, source_text@)
        }),
{
    // Labels must be output bare so they attach to the preceding element.
    // Deleted labels are suppressed to avoid duplicates with added labels.
    if is_label_only(source_text) {
        if tag == DiffTag::Added {
            let trimmed = trim(&chars_of(source_text));
            push_chars(out, &trimmed);
        }
        return;
    }
    write_marked_call(tag.func_name(), source_text, tag == DiffTag::Deleted, out);
}

/// A term item written as added or deleted text: `/ #func[term: description]`.
fn write_marked_term(func: &str, term: &str, description: &str, escape_refs: bool, out: &mut Vec<char>)
    ensures
        final(out)@ == old(out)@ + "/ "@ + seq!['#'] + func@ + seq!['['] + escape_content_spec(
            term@,
            escape_refs,
        ) + ": "@ + escape_content_spec(description@, escape_refs) + seq![']'],
{
    push_str(out, "/ ");
    out.push('#');
    push_str(out, func);
    out.push('[');
    let escaped_term = escape_content_chars(&chars_of(term), escape_refs);
    push_chars(out, &escaped_term);
    push_str(out, ": ");
    let escaped_description = escape_content_chars(&chars_of(description), escape_refs);
    push_chars(out, &escaped_description);
    out.push(']');
    proof {
        assert(out@ =~= old(out)@ + "/ "@ + seq!['#'] + func@ + seq!['['] + escape_content_spec(
            term@,
            escape_refs,
        ) + ": "@ + escape_content_spec(description@, escape_refs) + seq![']']);
    }
}

/// Render a block wrapped in #diff-added[...] or #diff-deleted[...].
fn render_added_or_deleted(block: &Block, tag: DiffTag, out: &mut Vec<char>)
    ensures
        final(out)@ == render_marked(old(out)@, *block, tag == DiffTag::Added),
{
    let escape_refs = tag == DiffTag::Deleted;
    let func = tag.func_name();
    match block {
        Block::Paragraph { source_text } => {
            write_marked_paragraph(source_text.as_str(), tag, out);
        },
        Block::Heading { depth, body_text } => {
            write_heading_prefix(*depth, out);
            write_marked_call(func, body_text.as_str(), escape_refs, out);
        },
        Block::ListItem { body_text } => {
            push_str(out, "- ");
            write_marked_call(func, body_text.as_str(), escape_refs, out);
        },
        Block::EnumItem { number, body_text } => {
            write_enum_prefix(*number, out);
            write_marked_call(func, body_text.as_str(), escape_refs, out);
        },
        Block::TermItem { term, description } => {
            write_marked_term(func, term.as_str(), description.as_str(), escape_refs, out);
        },
        // Raw blocks and equations are content-mode; they can be wrapped.
        Block::RawBlock { content } => {
            write_marked_call(func, content.as_str(), escape_refs, out);
        },
        Block::Equation { content, .. } => {
            write_marked_call(func, content.as_str(), escape_refs, out);
        },
        // FuncCall represents code-mode expressions (#import, #show, etc.).
        // Wrapping them in a content block would change their semantics,
        // so we output added code as-is and deleted code as comments.
        Block::FuncCall { content } => {
            if tag == DiffTag::Added {
                push_str(out, content.as_str());
            } else {
                write_commented_lines(content.as_str(), out);
            }
        },
        Block::Parbreak => {},  // paragraph breaks have no visual content to mark
    }
}

/// Render a modified block with per-span diff markup.
fn render_modified(kind: &BlockKind, spans: &Vec<DiffSpan>, out: &mut Vec<char>)
    ensures
        final(out)@ == old(out)@ + kind_prefix(*kind) + render_spans_spec(spans@),
{
    match kind {
        BlockKind::Heading { depth } => write_heading_prefix(*depth, out),
        BlockKind::ListItem => push_str(out, "- "),
        BlockKind::EnumItem { number } => write_enum_prefix(*number, out),
        BlockKind::TermItem => push_str(out, "/ "),
        BlockKind::Paragraph => {},
        BlockKind::Atomic | BlockKind::Parbreak => {},
    }
    render_spans(spans, out);
}

/// Render diff spans with markup for deleted/inserted text.
fn render_spans(spans: &Vec<DiffSpan>, out: &mut Vec<char>)
    ensures
        final(out)@ == old(out)@ + render_spans_spec(spans@),
{
    let stray_brackets = unbalanced_equal_brackets(spans);
    let ghost stray = stray_brackets@;
    let mut prev_was_diff = false;
    let n = spans.len();
    for i in 0..n
        invariant
            n == spans@.len(),
            stray == stray_brackets@,
            stray == stray_brackets_spec(spans@),
            (out@, prev_was_diff) == ({
                let st = spans_render(spans@, stray, i as int);
                (old(out)@ + st.0, st.1)
            }),
    {
        let span = &spans[i];
        let text = chars_of(span.text.as_str());
        if text.len() > 0 {
            match span.tag {
                SpanTag::Equal => {
                    // After `#diff-added[...]` or `#diff-deleted[...]`, a `(` or `[`
                    // would be parsed as function arguments by Typst. Insert a
                    // zero-width space to break the call syntax.
                    if prev_was_diff && (text[0] == '(' || text[0] == '[') {
                        out.push('\u{200B}');
                    }
                    write_equal_text(&text, i, &stray_brackets, out);
                    prev_was_diff = false;
                },
                SpanTag::Deleted => {
                    // A deleted label emits nothing, so `prev_was_diff` stays
                    // tied to the last actual output.
                    if !is_label_only(span.text.as_str()) {
                        push_str(out, "#diff-deleted[");
                        let escaped = escape_content_chars(&text, true);
                        push_chars(out, &escaped);
                        out.push(']');
                        prev_was_diff = true;
                    }
                },
                SpanTag::Inserted => {
                    if is_label_only(span.text.as_str()) {
                        push_chars(out, &text);
                        prev_was_diff = false;
                    } else {
                        push_str(out, "#diff-added[");
                        let escaped = escape_content_chars(&text, false);
                        push_chars(out, &escaped);
                        out.push(']');
                        prev_was_diff = true;
                    }
                },
            }
        }
        proof {
            assert(out@ =~= old(out)@ + spans_render(spans@, stray, i + 1).0);
        }
    }
}

/// Write the heading prefix (`= `, `== `, etc.).
fn write_heading_prefix(depth: usize, out: &mut Vec<char>)
    ensures
        final(out)@ == old(out)@ + heading_prefix(depth as nat),
{
    for i in 0..depth
        invariant
            out@ == old(out)@ + Seq::new(i as nat, |_j: int| '='),
    {
        proof {
            assert(Seq::new((i + 1) as nat, |_j: int| '=') =~= Seq::new(i as nat, |_j: int| '=').push(
                '=',
            ));
        }
        out.push('=');
    }
    out.push(' ');
    proof {
        assert(out@ =~= old(out)@ + heading_prefix(depth as nat));
    }
}

/// Write the enum item prefix (`+ ` for auto, `{n}. ` for explicit).
fn write_enum_prefix(number: Option<usize>, out: &mut Vec<char>)
    ensures
        final(out)@ == old(out)@ + enum_prefix(number),
{
    match number {
        Some(n) => {
            push_decimal(out, n);
            push_str(out, ". ");
        },
        None => push_str(out, "+ "),
    }
    proof {
        assert(out@ =~= old(out)@ + enum_prefix(number));
    }
}

/// Whether `(span, offset)` is listed in `stray`.
fn stray_contains(stray: &Vec<(usize, usize)>, span: usize, offset: usize) -> (r: bool)
    ensures
        r == stray_has(stray@, span as int, offset as int),
{
    let n = stray.len();
    for j in 0..n
        invariant
            n == stray@.len(),
            forall|x: int| 0 <= x < j ==> !(stray@[x].0 == span && stray@[x].1 == offset),
    {
        if stray[j].0 == span && stray[j].1 == offset {
            return true;
        }
    }
    false
}

/// Write unchanged text of span `span`, escaping the brackets that `stray` lists for it.
fn write_equal_text(text: &Vec<char>, span: usize, stray: &Vec<(usize, usize)>, out: &mut Vec<char>)
    ensures
        final(out)@ == old(out)@ + equal_text_spec(text@, span as int, stray@),
{
    let n = text.len();
    let mut i: usize = 0;
    while i < n
        invariant
            n == text@.len(),
            i <= n,
            i < n ==> !escaped_at(text@, i as int),
            out@ == old(out)@ + equal_text_prefix(text@, span as int, stray@, i as int),
        decreases n - i,
    {
        let ghost i0 = i;
        let ghost before = out@;
        let c = text[i];
        if c == '\\' {
            out.push('\\');
            if i + 1 < n {
                out.push(text[i + 1]);
                proof {
                    assert(escaped_at(text@, i + 1));
                    assert(!escaped_at(text@, i + 2));
                }
                i += 2;
            } else {
                i += 1;
            }
        } else if (c == '[' || c == ']') && stray_contains(stray, span, i) {
            out.push('\\');
            out.push(c);
            i += 1;
        } else {
            out.push(c);
            i += 1;
        }
        proof {
            let p0 = equal_text_prefix(text@, span as int, stray@, i0 as int);
            let p1 = equal_text_prefix(text@, span as int, stray@, i0 + 1);
            assert(p1 == equal_step(text@, span as int, stray@, p0, i0 as int));
            if i == i0 + 1 {
                if i < n {
                    assert(text@[i0 as int] != '\\');
                    assert(!escaped_at(text@, i as int));
                }
                assert(out@ =~= old(out)@ + p1);
            } else {
                let p2 = equal_text_prefix(text@, span as int, stray@, i0 + 2);
                assert(p2 == equal_step(text@, span as int, stray@, p1, i0 + 1));
                assert(out@ =~= old(out)@ + p2);
            }
        }
    }
}

/// `(span, offset)` of the brackets in unchanged text that nothing balances.
/// The `[...]` of a `#diff-added[...]`/`#diff-deleted[...]` call cannot pair
/// with them, so Typst would either report an unexpected closing bracket or
/// swallow the rest of the block into a content block that never closes.
fn unbalanced_equal_brackets(spans: &Vec<DiffSpan>) -> (r: Vec<(usize, usize)>)
    ensures
        r@ == stray_brackets_spec(spans@),
{
    let mut stray: Vec<(usize, usize)> = Vec::new();
    let mut open: Vec<(usize, usize)> = Vec::new();
    let n = spans.len();
    for i in 0..n
        invariant
            n == spans@.len(),
            (stray@, open@) == spans_bracket_scan(spans@, i as int),
    {
        if matches!(spans[i].tag, SpanTag::Equal) {
            let text = chars_of(spans[i].text.as_str());
            let ghost st0 = (stray@, open@);
            let m = text.len();
            let mut j: usize = 0;
            while j < m
                invariant
                    m == text@.len(),
                    j <= m,
                    j < m ==> !escaped_at(text@, j as int),
                    (stray@, open@) == text_bracket_scan(text@, i as int, st0, j as int),
                decreases m - j,
            {
                let ghost j0 = j;
                let ghost prev = (stray@, open@);
                let c = text[j];
                if c == '\\' {
                    if j + 1 < m {
                        proof {
                            assert(escaped_at(text@, j + 1));
                            assert(!escaped_at(text@, j + 2));
                        }
                        j += 2;
                    } else {
                        j += 1;
                    }
                } else if c == '[' {
                    open.push((i, j));
                    j += 1;
                } else if c == ']' {
                    // A `]` with no `[` before it in unchanged text is stray.
                    if open.len() > 0 {
                        open.pop();
                    } else {
                        stray.push((i, j));
                    }
                    j += 1;
                } else {
                    j += 1;
                }
                proof {
                    let p1 = text_bracket_scan(text@, i as int, st0, j0 + 1);
                    assert(p1 == bracket_step(text@, i as int, prev.0, prev.1, j0 as int));
                    if j == j0 + 1 {
                        if j < m {
                            assert(text@[j0 as int] != '\\');
                            assert(!escaped_at(text@, j as int));
                        }
                        assert(stray@ =~= p1.0);
                        assert(open@ =~= p1.1);
                    } else {
                        let p2 = text_bracket_scan(text@, i as int, st0, j0 + 2);
                        assert(p2 == bracket_step(text@, i as int, p1.0, p1.1, j0 + 1));
                        assert(stray@ =~= p2.0);
                        assert(open@ =~= p2.1);
                    }
                }
            }
        }
    }
    let ghost scanned = stray@;
    let m = open.len();
    for x in 0..m
        invariant
            m == open@.len(),
            stray@ == scanned + open@.take(x as int),
    {
        proof {
            assert(open@.take(x + 1) == open@.take(x as int).push(open@[x as int]));
        }
        stray.push(open[x]);
    }
    proof {
        assert(open@.take(m as int) == open@);
    }
    stray
}

} // verus!
