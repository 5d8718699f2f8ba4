//! What holds of every rendered document.
use vstd::prelude::*;

use crate::escape::escape_content_spec;
use crate::label::is_label_only_spec;
use crate::model::{Block, DiffResult};
use crate::render::{
    block_text, call_open, commented_lines, drop_final_newline, enum_prefix, equal_text_prefix,
    equal_text_spec, heading_prefix, kind_prefix, marked_call, render_marked, render_prefix,
    render_result, render_spans_spec, render_spec, stray_has, PREAMBLE,
};
use crate::text::{lines_spec, trim_spec};

verus! {

/// `a` is a prefix of `b`.
pub open spec fn starts_with(b: Seq<char>, a: Seq<char>) -> bool {
    a.len() <= b.len() && b.take(a.len() as int) == a
}

/// What writing `r` appends to the document: the result's own text and the
/// blank line that ends it.
pub open spec fn result_piece(r: DiffResult) -> Seq<char> {
    render_result(seq![], r)
}

/// The pieces of the first `n` results, one after another.
pub open spec fn rendered_pieces(results: Seq<DiffResult>, n: int) -> Seq<char>
    decreases n,
{
    if n <= 0 {
        seq![]
    } else {
        rendered_pieces(results, n - 1) + result_piece(results[n - 1])
    }
}

/// Writing a block only appends: it does not read what was written before.
proof fn lemma_marked_local(x: Seq<char>, y: Seq<char>, b: Block, added: bool)
    ensures
        render_marked(x + y, b, added) == x + render_marked(y, b, added),
{
    match b {
        Block::FuncCall { content } => {
            if added {
                assert((x + y) + content@ =~= x + (y + content@));
            } else {
                let c = drop_final_newline(commented_lines(lines_spec(content@)));
                assert((x + y) + c =~= x + (y + c));
            }
        },
        Block::Paragraph { source_text } => {
            if is_label_only_spec(source_text@) {
                assert((x + y) + trim_spec(source_text@) =~= x + (y + trim_spec(source_text@)));
            } else {
                assert((x + y) + marked_call(added, source_text@) =~= x + (y + marked_call(
                    added,
                    source_text@,
                )));
            }
        },
        Block::Heading { depth, body_text } => {
            assert((x + y) + heading_prefix(depth as nat) + marked_call(added, body_text@) =~= x + (y
                + heading_prefix(depth as nat) + marked_call(added, body_text@)));
        },
        Block::ListItem { body_text } => {
            assert((x + y) + "- "@ + marked_call(added, body_text@) =~= x + (y + "- "@
                + marked_call(added, body_text@)));
        },
        Block::EnumItem { number, body_text } => {
            assert((x + y) + enum_prefix(number) + marked_call(added, body_text@) =~= x + (y
                + enum_prefix(number) + marked_call(added, body_text@)));
        },
        Block::TermItem { term, description } => {
            let w = "/ "@ + call_open(added) + escape_content_spec(term@, !added) + ": "@
                + escape_content_spec(description@, !added) + seq![']'];
            assert((x + y) + "/ "@ + call_open(added) + escape_content_spec(term@, !added) + ": "@
                + escape_content_spec(description@, !added) + seq![']'] =~= (x + y) + w);
            assert(y + "/ "@ + call_open(added) + escape_content_spec(term@, !added) + ": "@
                + escape_content_spec(description@, !added) + seq![']'] =~= y + w);
            assert((x + y) + w =~= x + (y + w));
        },
        Block::RawBlock { content } => {
            assert((x + y) + marked_call(added, content@) =~= x + (y + marked_call(
                added,
                content@,
            )));
        },
        Block::Equation { content, .. } => {
            assert((x + y) + marked_call(added, content@) =~= x + (y + marked_call(
                added,
                content@,
            )));
        },
        Block::Parbreak => {},
    }
}

/// Writing a result only appends: it does not read what was written before.
proof fn lemma_result_local(x: Seq<char>, y: Seq<char>, r: DiffResult)
    ensures
        render_result(x + y, r) == x + render_result(y, r),
{
    let nl = seq!['\n', '\n'];
    match r {
        DiffResult::Unchanged(b) => {
            assert((x + y) + block_text(b) + nl =~= x + (y + block_text(b) + nl));
        },
        DiffResult::Added(b) => {
            lemma_marked_local(x, y, b, true);
            assert(x + render_marked(y, b, true) + nl =~= x + (render_marked(y, b, true) + nl));
        },
        DiffResult::Deleted(b) => {
            lemma_marked_local(x, y, b, false);
            assert(x + render_marked(y, b, false) + nl =~= x + (render_marked(y, b, false) + nl));
        },
        DiffResult::Modified { kind, spans } => {
            assert((x + y) + kind_prefix(kind) + render_spans_spec(spans@) + nl =~= x + (y
                + kind_prefix(kind) + render_spans_spec(spans@) + nl));
        },
    }
}

/// Writing `r` appends its piece to whatever was written before.
proof fn lemma_result_appends(out: Seq<char>, r: DiffResult)
    ensures
        render_result(out, r) == out + result_piece(r),
{
    lemma_result_local(out, seq![], r);
    assert(out + Seq::<char>::empty() =~= out);
}

proof fn lemma_prefix_pieces(results: Seq<DiffResult>, n: int)
    requires
        0 <= n <= results.len(),
    ensures
        render_prefix(results, n) == PREAMBLE@ + seq!['\n'] + rendered_pieces(results, n),
    decreases n,
{
    if n == 0 {
        assert(PREAMBLE@ + seq!['\n'] + Seq::<char>::empty() =~= PREAMBLE@ + seq!['\n']);
    } else {
        lemma_prefix_pieces(results, n - 1);
        lemma_result_appends(render_prefix(results, n - 1), results[n - 1]);
        assert(PREAMBLE@ + seq!['\n'] + rendered_pieces(results, n - 1) + result_piece(
            results[n - 1],
        ) =~= PREAMBLE@ + seq!['\n'] + rendered_pieces(results, n));
    }
}

/// A rendered document is the preamble and a newline, then each result's
/// piece in order: its own text followed by a blank line.
pub proof fn law_render_pieces(results: Seq<DiffResult>)
    ensures
        render_spec(results) == PREAMBLE@ + seq!['\n'] + rendered_pieces(
            results,
            results.len() as int,
        ),
{
    lemma_prefix_pieces(results, results.len() as int);
}

/// Every rendered document starts with the preamble that defines
/// `diff-added` and `diff-deleted`, and a newline.
pub proof fn law_render_starts_with_preamble(results: Seq<DiffResult>)
    ensures
        starts_with(render_spec(results), PREAMBLE@ + seq!['\n']),
{
    let q = PREAMBLE@ + seq!['\n'];
    law_render_pieces(results);
    assert(render_spec(results).take(q.len() as int) =~= q);
}

/// Every result ends with a blank line, so a rendered document with at least
/// one result ends with two newlines.
pub proof fn law_render_ends_with_blank_line(results: Seq<DiffResult>)
    requires
        results.len() > 0,
    ensures
        ({
            let d = render_spec(results);
            d.len() >= 2 && d[d.len() - 1] == '\n' && d[d.len() - 2] == '\n'
        }),
{
    let n = results.len() as int;
    assert(render_spec(results) == render_result(render_prefix(results, n - 1), results[n - 1]));
}

/// Rendering one more result keeps the document rendered so far and appends
/// that result's piece.
pub proof fn law_render_appends(results: Seq<DiffResult>, r: DiffResult)
    ensures
        render_spec(results.push(r)) == render_spec(results) + result_piece(r),
        starts_with(render_spec(results.push(r)), render_spec(results)),
{
    let rs = results.push(r);
    assert forall|i: int| 0 <= i <= results.len() implies render_prefix(rs, i) == render_prefix(
        results,
        i,
    ) by {
        lemma_prefix_same(results, r, i);
    }
    assert(render_spec(rs) == render_result(render_spec(results), r));
    lemma_result_appends(render_spec(results), r);
    let d = render_spec(results);
    assert((d + result_piece(r)).take(d.len() as int) =~= d);
}

proof fn lemma_prefix_same(results: Seq<DiffResult>, r: DiffResult, i: int)
    requires
        0 <= i <= results.len(),
    ensures
        render_prefix(results.push(r), i) == render_prefix(results, i),
    decreases i,
{
    if i > 0 {
        lemma_prefix_same(results, r, i - 1);
    }
}

proof fn lemma_pieces_of_concat(a: Seq<DiffResult>, b: Seq<DiffResult>, n: int)
    requires
        0 <= n <= a.len() + b.len(),
    ensures
        n <= a.len() ==> rendered_pieces(a + b, n) == rendered_pieces(a, n),
        n >= a.len() ==> rendered_pieces(a + b, n) == rendered_pieces(a, a.len() as int)
            + rendered_pieces(b, n - a.len()),
    decreases n,
{
    if n > 0 {
        lemma_pieces_of_concat(a, b, n - 1);
        if n <= a.len() {
            assert((a + b)[n - 1] == a[n - 1]);
        } else {
            assert((a + b)[n - 1] == b[n - 1 - a.len()]);
            if n - 1 < a.len() {
                assert(rendered_pieces(b, 0) =~= Seq::<char>::empty());
                assert(rendered_pieces(a, a.len() as int) + Seq::<char>::empty() =~= rendered_pieces(
                    a,
                    a.len() as int,
                ));
            }
            assert(rendered_pieces(a, a.len() as int) + rendered_pieces(b, n - 1 - a.len())
                + result_piece(b[n - 1 - a.len()]) =~= rendered_pieces(a, a.len() as int)
                + rendered_pieces(b, n - a.len()));
        }
    } else {
        assert(rendered_pieces(a, 0) + rendered_pieces(b, 0) =~= Seq::<char>::empty());
    }
}

/// Rendering two lists one after the other gives the first document followed
/// by the second without its preamble: one preamble, then every result
/// written on its own, each followed by a blank line.
pub proof fn law_render_concat(a: Seq<DiffResult>, b: Seq<DiffResult>)
    ensures
        render_spec(a + b) == render_spec(a) + render_spec(b).skip(PREAMBLE@.len() + 1int),
{
    let q = PREAMBLE@ + seq!['\n'];
    law_render_pieces(a);
    law_render_pieces(b);
    law_render_pieces(a + b);
    lemma_pieces_of_concat(a, b, (a.len() + b.len()) as int);
    let pb = rendered_pieces(b, b.len() as int);
    assert((q + pb).skip(PREAMBLE@.len() + 1int) =~= pb);
    assert(q + rendered_pieces(a, a.len() as int) + pb =~= (q + rendered_pieces(
        a,
        a.len() as int,
    )) + pb);
}

/// Unchanged text in which no bracket is stray is written exactly as it is.
pub proof fn law_balanced_equal_text_unchanged(
    text: Seq<char>,
    span: int,
    stray: Seq<(usize, usize)>,
)
    requires
        forall|k: int| 0 <= k < text.len() ==> !stray_has(stray, span, k),
    ensures
        equal_text_spec(text, span, stray) == text,
{
    lemma_equal_prefix_unchanged(text, span, stray, text.len() as int);
    assert(text.take(text.len() as int) == text);
}

proof fn lemma_equal_prefix_unchanged(
    text: Seq<char>,
    span: int,
    stray: Seq<(usize, usize)>,
    n: int,
)
    requires
        0 <= n <= text.len(),
        forall|k: int| 0 <= k < text.len() ==> !stray_has(stray, span, k),
    ensures
        equal_text_prefix(text, span, stray, n) == text.take(n),
    decreases n,
{
    if n == 0 {
        assert(text.take(0) =~= Seq::<char>::empty());
    } else {
        lemma_equal_prefix_unchanged(text, span, stray, n - 1);
        assert(!stray_has(stray, span, n - 1));
        assert(text.take(n) == text.take(n - 1).push(text[n - 1]));
    }
}

} // verus!
