use typdiff_render::escape::{escape_content, escape_markup};
use typdiff_render::render::{is_label_only, render, PREAMBLE};
use typdiff_render::{Block, BlockKind, DiffResult, DiffSpan, SpanTag};

fn span(tag: SpanTag, text: &str) -> DiffSpan {
    DiffSpan {
        tag,
        text: text.to_string(),
    }
}

fn body(results: &[DiffResult]) -> String {
    let out = render(results);
    let prefix = format!("{}\n", PREAMBLE);
    assert!(out.starts_with(&prefix));
    out[prefix.len()..].to_string()
}

fn parses(src: &str) -> bool {
    !typst_syntax::parse(src).erroneous()
}

#[test]
fn render_of_nothing_is_preamble_and_newline() {
    assert_eq!(render(&[]), format!("{}\n", PREAMBLE));
}

#[test]
fn unchanged_blocks_are_written_verbatim() {
    let results = vec![
        DiffResult::Unchanged(Block::Heading {
            depth: 2,
            body_text: "Intro".into(),
        }),
        DiffResult::Unchanged(Block::ListItem {
            body_text: "apple".into(),
        }),
        DiffResult::Unchanged(Block::EnumItem {
            number: Some(12),
            body_text: "twelve".into(),
        }),
        DiffResult::Unchanged(Block::EnumItem {
            number: None,
            body_text: "auto".into(),
        }),
        DiffResult::Unchanged(Block::TermItem {
            term: "Term".into(),
            description: "meaning".into(),
        }),
        DiffResult::Unchanged(Block::RawBlock {
            content: "```rs\nx[\n```".into(),
        }),
        DiffResult::Unchanged(Block::Equation {
            content: "$ x^2 $".into(),
            block: true,
        }),
        DiffResult::Unchanged(Block::FuncCall {
            content: "#set text(size: 10pt)".into(),
        }),
        DiffResult::Unchanged(Block::Parbreak),
    ];
    assert_eq!(
        body(&results),
        "== Intro\n\n- apple\n\n12. twelve\n\n+ auto\n\n/ Term: meaning\n\n```rs\nx[\n```\n\n$ x^2 $\n\n#set text(size: 10pt)\n\n\n\n"
    );
}

#[test]
fn added_and_deleted_blocks_are_wrapped() {
    let results = vec![
        DiffResult::Added(Block::Heading {
            depth: 1,
            body_text: "New".into(),
        }),
        DiffResult::Deleted(Block::ListItem {
            body_text: "see @x".into(),
        }),
        DiffResult::Added(Block::EnumItem {
            number: Some(3),
            body_text: "three".into(),
        }),
        DiffResult::Deleted(Block::TermItem {
            term: "T".into(),
            description: "d <l>".into(),
        }),
        DiffResult::Added(Block::RawBlock {
            content: "`r`".into(),
        }),
        DiffResult::Deleted(Block::Equation {
            content: "$a$".into(),
            block: false,
        }),
        DiffResult::Added(Block::Parbreak),
    ];
    assert_eq!(
        body(&results),
        "= #diff-added[New]\n\n- #diff-deleted[see \\@x]\n\n3. #diff-added[three]\n\n/ #diff-deleted[T: d \\<l>]\n\n#diff-added[`r`]\n\n#diff-deleted[$a$]\n\n\n\n"
    );
}

#[test]
fn added_code_is_kept_and_deleted_code_is_commented() {
    let results = vec![
        DiffResult::Added(Block::FuncCall {
            content: "#import \"a.typ\"".into(),
        }),
        DiffResult::Deleted(Block::FuncCall {
            content: "#show x: y\r\n#let z = 1\n".into(),
        }),
    ];
    assert_eq!(
        body(&results),
        "#import \"a.typ\"\n\n// #show x: y\n// #let z = 1\n\n"
    );
}

#[test]
fn deleted_code_without_lines_writes_no_text_of_its_own() {
    let results = vec![
        DiffResult::Unchanged(Block::Paragraph {
            source_text: "A".into(),
        }),
        DiffResult::Deleted(Block::FuncCall { content: "".into() }),
    ];
    let out = render(&results);
    assert_eq!(out, format!("{}\nA\n\n\n\n", PREAMBLE));
    // Nothing the caller wrote is taken back: the preamble's newline stays.
    let only = render(&[DiffResult::Deleted(Block::FuncCall { content: "".into() })]);
    assert_eq!(only, format!("{}\n\n\n", PREAMBLE));
}

#[test]
fn rendering_more_results_extends_the_document() {
    let first = DiffResult::Added(Block::Paragraph {
        source_text: "one".into(),
    });
    let second = DiffResult::Deleted(Block::Paragraph {
        source_text: "two".into(),
    });
    let a = render(&[first.clone()]);
    let b = render(&[first, second]);
    assert!(b.starts_with(&a));
    assert!(a.ends_with("\n\n") && b.ends_with("\n\n"));
}

#[test]
fn label_only_paragraphs() {
    let added = body(&[DiffResult::Added(Block::Paragraph {
        source_text: "  <fig:one>\n".into(),
    })]);
    assert_eq!(added, "<fig:one>\n\n");
    let deleted = body(&[DiffResult::Deleted(Block::Paragraph {
        source_text: "<fig:one>".into(),
    })]);
    assert_eq!(deleted, "\n\n");
}

#[test]
fn label_recognition() {
    assert!(is_label_only("\t<sec.intro>\n"));
    assert!(is_label_only("<a_b-c>"));
    assert!(!is_label_only("<>"));
    assert!(!is_label_only("<a b>"));
    assert!(!is_label_only("<a"));
    assert!(!is_label_only("a>"));
    assert!(!is_label_only(""));
}

#[test]
fn modified_block_prefixes() {
    let spans = vec![span(SpanTag::Equal, "x "), span(SpanTag::Inserted, "y")];
    let results = vec![
        DiffResult::Modified {
            kind: BlockKind::Heading { depth: 3 },
            spans: spans.clone(),
        },
        DiffResult::Modified {
            kind: BlockKind::ListItem,
            spans: spans.clone(),
        },
        DiffResult::Modified {
            kind: BlockKind::EnumItem { number: Some(7) },
            spans: spans.clone(),
        },
        DiffResult::Modified {
            kind: BlockKind::EnumItem { number: None },
            spans: spans.clone(),
        },
        DiffResult::Modified {
            kind: BlockKind::TermItem,
            spans: spans.clone(),
        },
        DiffResult::Modified {
            kind: BlockKind::Atomic,
            spans,
        },
    ];
    assert_eq!(
        body(&results),
        "=== x #diff-added[y]\n\n- x #diff-added[y]\n\n7. x #diff-added[y]\n\n+ x #diff-added[y]\n\n/ x #diff-added[y]\n\nx #diff-added[y]\n\n"
    );
}

#[test]
fn stray_brackets_in_unchanged_text_are_escaped() {
    // The `[` of the first span pairs with the `]` of the third; the last `]`
    // and the `[` inside the deleted span's neighbour have no partner.
    let results = vec![DiffResult::Modified {
        kind: BlockKind::Paragraph,
        spans: vec![
            span(SpanTag::Equal, "[a "),
            span(SpanTag::Deleted, "b"),
            span(SpanTag::Equal, "] c ] d [e"),
        ],
    }];
    let out = body(&results);
    assert_eq!(out, "[a #diff-deleted[b]] c \\] d \\[e\n\n");
    assert!(parses(&render(&results)));
}

#[test]
fn escaped_brackets_in_unchanged_text_are_not_counted() {
    let results = vec![DiffResult::Modified {
        kind: BlockKind::Paragraph,
        spans: vec![
            span(SpanTag::Equal, "\\[x\\]"),
            span(SpanTag::Deleted, "y"),
        ],
    }];
    assert_eq!(body(&results), "\\[x\\]#diff-deleted[y]\n\n");
}

#[test]
fn zero_width_space_after_a_diff_call() {
    let results = vec![DiffResult::Modified {
        kind: BlockKind::Paragraph,
        spans: vec![
            span(SpanTag::Inserted, "x"),
            span(SpanTag::Equal, "[y]"),
            span(SpanTag::Deleted, "z"),
            span(SpanTag::Equal, ""),
            span(SpanTag::Equal, "(w)"),
            span(SpanTag::Equal, "(v)"),
        ],
    }];
    assert_eq!(
        body(&results),
        "#diff-added[x]\u{200B}[y]#diff-deleted[z]\u{200B}(w)(v)\n\n"
    );
}

#[test]
fn inserted_label_span_is_bare_and_ends_the_call_guard() {
    let results = vec![DiffResult::Modified {
        kind: BlockKind::Paragraph,
        spans: vec![
            span(SpanTag::Deleted, "a"),
            span(SpanTag::Inserted, " <l>"),
            span(SpanTag::Equal, "(b)"),
        ],
    }];
    assert_eq!(body(&results), "#diff-deleted[a] <l>(b)\n\n");
}

#[test]
fn escaping_keeps_the_block_closed() {
    for (input, expected) in [
        ("a ] [ b", "a \\] \\[ b"),
        ("]][[", "\\]\\]\\[\\["),
        ("[x]]", "[x]\\]"),
        ("\\", "\\ "),
        ("\\\\\\", "\\\\\\ "),
        ("[\\", "\\[\\ "),
    ] {
        let out = escape_content(input, false);
        assert_eq!(out, expected);
        assert!(parses(&format!("#diff-added[{out}] tail")), "{out}");
    }
}

#[test]
fn deleted_references_are_escaped() {
    assert_eq!(escape_content("@a and \\@b", true), "\\@a and \\@b");
    assert_eq!(escape_content("@a", false), "@a");
    assert_eq!(escape_content("x <y> #ref( <z>, s)", true), "x \\<y> #ref( <z>, s)");
    assert_eq!(escape_content("#refx(<z>)", true), "#refx(\\<z>)");
}

#[test]
fn plain_text_is_unchanged() {
    for text in ["", "plain text, 1 + 2 = 3.", "unicode: 日本語 ß"] {
        assert_eq!(escape_content(text, false), text);
        assert_eq!(escape_content(text, true), text);
    }
}

#[test]
fn word_adjacent_markers_stay_literal_in_the_fallback() {
    // The stray `*` forces the fallback, where `a*b` stays as it is but the
    // `_` with a space after it is escaped.
    assert_eq!(escape_content("a*b _c *", false), "a*b \\_c \\*");
}

#[test]
fn rendered_documents_parse() {
    let results = vec![
        DiffResult::Added(Block::Paragraph {
            source_text: "*bold* and ] stray [".into(),
        }),
        DiffResult::Deleted(Block::Paragraph {
            source_text: "see @ref and <lbl> \\".into(),
        }),
        DiffResult::Modified {
            kind: BlockKind::Paragraph,
            spans: vec![
                span(SpanTag::Equal, "text [note"),
                span(SpanTag::Deleted, "] x ["),
                span(SpanTag::Inserted, "*"),
                span(SpanTag::Equal, "] here"),
            ],
        },
    ];
    let out = render(&results);
    assert!(parses(&out), "{out}");
}

fn chars(s: &str) -> Vec<char> {
    s.chars().collect()
}

fn text(v: &[char]) -> String {
    v.iter().collect()
}

#[test]
fn escaping_twice_changes_nothing() {
    for input in ["a ] [ b", "[x]] \\", "*a* _b_ x*y \\*", "\\[ ] @r <l>", "]]\\"] {
        for markers in [false, true] {
            let once = escape_markup(&chars(input), false, markers);
            let twice = escape_markup(&once, false, markers);
            assert_eq!(text(&twice), text(&once), "{input} {markers}");
        }
        let once = escape_content(input, false);
        assert_eq!(escape_content(&once, false), once, "{input}");
    }
}

#[test]
fn backslashes_go_before_exactly_the_escaped_characters() {
    // `[` closed later stays, the `]` after it stays, the stray `]` and the
    // unclosed `[` gain a backslash, escaped characters pass through.
    let out = escape_markup(&chars("[a] ] \\] [b"), false, false);
    assert_eq!(text(&out), "[a] \\] \\] \\[b");
    let out = escape_markup(&chars("@x <y> *z* a_b"), true, true);
    assert_eq!(text(&out), "\\@x \\<y> \\*z\\* a_b");
    let out = escape_markup(&chars("@x <y> *z*"), false, false);
    assert_eq!(text(&out), "@x <y> *z*");
}

#[test]
fn rendering_two_lists_is_rendering_each() {
    let a = vec![
        DiffResult::Added(Block::Paragraph {
            source_text: "one [".into(),
        }),
        DiffResult::Unchanged(Block::Parbreak),
    ];
    let b = vec![
        DiffResult::Deleted(Block::Paragraph {
            source_text: "two @x".into(),
        }),
        DiffResult::Modified {
            kind: BlockKind::Paragraph,
            spans: vec![span(SpanTag::Equal, "a "), span(SpanTag::Inserted, "b")],
        },
    ];
    let both: Vec<DiffResult> = a.iter().chain(b.iter()).cloned().collect();
    let joined = render(&a) + &render(&b)[PREAMBLE.len() + 1..];
    assert_eq!(render(&both), joined);
}

#[test]
fn whitespace_and_label_characters() {
    assert!(is_label_only("\u{3000}\u{a0}<a>\u{2028}\u{85}"));
    assert!(!is_label_only("\u{200b}<a>"));
    assert!(is_label_only("\x0b<a.b:c-d_e1>\x0c\r\n "));
    assert!(!is_label_only("<a[b]>"));
    assert!(!is_label_only("<a\\b>"));
    assert!(!is_label_only("\x1c<a>"));
    assert!(is_label_only("<é>"));
}
