use typdiff_render::escape::escape_content;
use typdiff_render::render::{is_label_only, render};
use typdiff_render::{Block, BlockKind, DiffResult, DiffSpan, SpanTag};

#[test]
fn test_escape_content_no_special() {
    assert_eq!(escape_content("hello world", false), "hello world");
}

#[test]
fn test_escape_content_balanced_brackets() {
    assert_eq!(escape_content("a [b] c", false), "a [b] c");
}

#[test]
fn test_escape_content_unbalanced_bracket() {
    assert_eq!(escape_content("a ] b", false), "a \\] b");
}

#[test]
fn test_escape_content_unbalanced_open_bracket() {
    // A lone `[` would open a nested block that swallows the closing `]`.
    assert_eq!(escape_content("a [ b", false), "a \\[ b");
    assert_eq!(escape_content("[", false), "\\[");
    assert_eq!(escape_content("[a [b", false), "\\[a \\[b");
}

#[test]
fn test_escape_content_preserves_existing_escapes() {
    // `\]` is already literal; escaping the backslash would hand the `]`
    // back to Typst and close the caller's content block early.
    assert_eq!(escape_content("a \\] b", false), "a \\] b");
    assert_eq!(escape_content("\\[x", false), "\\[x");
    assert_eq!(escape_content("\\*baz*", false), "\\*baz\\*");
}

#[test]
fn test_escape_content_unpaired_marker_is_escaped() {
    // Nothing closes these, so they must not be left as emphasis markers.
    assert_eq!(escape_content("*", false), "\\*");
    assert_eq!(escape_content("_", false), "\\_");
    // Word-adjacent on one side only, so Typst reads it as a marker.
    assert_eq!(escape_content("word* ", false), "word\\* ");
    assert_eq!(escape_content(" *word", false), " \\*word");
}

#[test]
fn test_escape_content_keeps_self_contained_emphasis() {
    // The markers pair up inside the block, so the styling survives.
    assert_eq!(escape_content("*bold*", false), "*bold*");
    assert_eq!(escape_content("_it_ and *bold*", false), "_it_ and *bold*");
    // Both neighbours are word characters, so this is literal text already.
    assert_eq!(escape_content("in*side", false), "in*side");
}

#[test]
fn test_escape_content_unpaired_marker_forces_all_markers_literal() {
    // `*bold*` alone would pair, but the stray `*` does not, so the whole
    // span falls back to literal markers to keep the block closed.
    assert_eq!(escape_content("*bold* and *", false), "\\*bold\\* and \\*");
}

#[test]
fn test_escape_content_trailing_backslash() {
    assert_eq!(escape_content("text\\", false), "text\\ ");
}

#[test]
fn test_escape_content_trailing_double_backslash() {
    assert_eq!(escape_content("text\\\\", false), "text\\\\");
}

#[test]
fn test_escape_content_refs_not_escaped_by_default() {
    assert_eq!(escape_content("see @ref here", false), "see @ref here");
}

#[test]
fn test_escape_content_refs_escaped_when_requested() {
    assert_eq!(escape_content("see @ref here", true), "see \\@ref here");
}

#[test]
fn test_escape_content_labels_escaped_when_requested() {
    assert_eq!(escape_content("text <my-label>", true), "text \\<my-label>");
}

#[test]
fn test_escape_content_ref_call_label_not_escaped_when_requested() {
    assert_eq!(
        escape_content("compare #ref(<tbl-cobalt-notes>, supplement: [])", true),
        "compare #ref(<tbl-cobalt-notes>, supplement: [])"
    );
}

#[test]
fn test_is_label_only() {
    assert!(is_label_only("<my-label>"));
    assert!(is_label_only("  <my-label>  "));
    assert!(!is_label_only("text <label>"));
    assert!(!is_label_only("<a> <b>"));
    assert!(!is_label_only("no label"));
}

#[test]
fn test_render_preamble() {
    let output = render(&[]);
    assert!(output.contains("#let diff-added"));
    assert!(output.contains("#let diff-deleted"));
}

#[test]
fn test_render_unchanged() {
    let results = vec![DiffResult::Unchanged(Block::Paragraph {
        source_text: "Hello".into(),
    })];
    let output = render(&results);
    assert!(output.contains("\nHello\n"));
    let body = output.split("\n\n").last().unwrap();
    assert!(!body.contains("#diff-added["));
    assert!(!body.contains("#diff-deleted["));
}

#[test]
fn test_render_added_paragraph() {
    let results = vec![DiffResult::Added(Block::Paragraph {
        source_text: "New text".into(),
    })];
    let output = render(&results);
    assert!(output.contains("#diff-added[New text]"));
}

#[test]
fn test_render_deleted_paragraph_escapes_refs() {
    let results = vec![DiffResult::Deleted(Block::Paragraph {
        source_text: "see @old-ref here".into(),
    })];
    let output = render(&results);
    assert!(output.contains("#diff-deleted[see \\@old-ref here]"));
}

#[test]
fn test_render_label_only_paragraph_not_wrapped() {
    let results = vec![DiffResult::Added(Block::Paragraph {
        source_text: "<my-label>".into(),
    })];
    let output = render(&results);
    assert!(output.contains("<my-label>"));
    assert!(!output.contains("#diff-added[<my-label>]"));
}

#[test]
fn test_render_modified() {
    let results = vec![DiffResult::Modified {
        kind: BlockKind::Paragraph,
        spans: vec![
            DiffSpan {
                tag: SpanTag::Equal,
                text: "Hello ".into(),
            },
            DiffSpan {
                tag: SpanTag::Deleted,
                text: "world".into(),
            },
            DiffSpan {
                tag: SpanTag::Inserted,
                text: "there".into(),
            },
        ],
    }];
    let output = render(&results);
    assert!(output.contains("Hello #diff-deleted[world]#diff-added[there]"));
}

#[test]
fn test_render_modified_label_bare() {
    let results = vec![DiffResult::Modified {
        kind: BlockKind::Paragraph,
        spans: vec![
            DiffSpan {
                tag: SpanTag::Deleted,
                text: "<old-label>".into(),
            },
            DiffSpan {
                tag: SpanTag::Inserted,
                text: "<new-label>".into(),
            },
        ],
    }];
    let output = render(&results);
    assert!(output.contains("<new-label>"));
    assert!(!output.contains("#diff-added[<new-label>]"));
    assert!(!output.contains("#diff-deleted[\\<old-label>]"));
}

#[test]
fn test_render_skipped_deleted_label_keeps_diff_call_guard() {
    let results = vec![DiffResult::Modified {
        kind: BlockKind::Paragraph,
        spans: vec![
            DiffSpan {
                tag: SpanTag::Deleted,
                text: "old".into(),
            },
            DiffSpan {
                tag: SpanTag::Deleted,
                text: "<old-label>".into(),
            },
            DiffSpan {
                tag: SpanTag::Equal,
                text: "(next)".into(),
            },
        ],
    }];
    let output = render(&results);
    assert!(output.contains("#diff-deleted[old]\u{200B}(next)"));
}
