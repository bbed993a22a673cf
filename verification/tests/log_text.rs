use typst_diff::debug_paths::{default_debug_dir, pipeline_events_path, rendered_region_frame_traces_path, trace_files};
use typst_diff::log_text::{
    collect_word_op_text, has_meaningful_equal, has_meaningful_tokens, has_textual_word_change,
    preview, push_log_entry, single_line, summarize_word_op,
};
use typst_diff::modification_log::{
    edit_content_kind, log_edit_content, modification_log, modified_block_log_text,
    EditLogContent, LogBase, LoggedEdits,
};
use typst_diff::blocks::{diff_blocks_raw, match_edit_zones, BlockContent, BlockOp};
use typst_diff::tokens::{collect_text_tokens, diff_words, OpKind, Token, WordOp};

fn tokens(words: &[&str]) -> Vec<Token> {
    words.iter().map(|w| Token::from_text(w)).collect()
}

#[test]
fn single_line_collapses_white_space_and_trims() {
    assert_eq!(single_line("  Old\n\tvalue  "), "Old value");
    assert_eq!(single_line("a \u{3000} b"), "a b");
    assert_eq!(single_line(""), "");
}

#[test]
fn single_line_cuts_long_texts() {
    let long = "x".repeat(1500);
    let line = single_line(&long);
    assert_eq!(line.len(), 1003);
    assert!(line.ends_with("..."));
    let wide = "é".repeat(600);
    let line = single_line(&wide);
    assert_eq!(line.chars().count(), 503);
}

#[test]
fn log_entries_have_heading_fields_and_blank_line() {
    let mut log = String::new();
    push_log_entry(
        &mut log,
        2,
        "modified",
        &[("block", "New\nvalue".to_string()), ("deleted", "Old".to_string())],
    );
    assert_eq!(log, "## 2: modified\nblock: New value\ndeleted: Old\n\n");
}

#[test]
fn word_op_text_joins_selected_runs() {
    let ops = vec![
        WordOp::Equal(tokens(&["Definition", " ", "2"])),
        WordOp::Delete(tokens(&["tree"])),
        WordOp::Insert(tokens(&["forest"])),
        WordOp::Equal(tokens(&["is", " ", "acyclic"])),
    ];
    assert_eq!(
        collect_word_op_text(&ops, &[OpKind::Equal]),
        "Definition 2 | is acyclic"
    );
    assert_eq!(
        collect_word_op_text(&ops, &[OpKind::Equal, OpKind::Insert]),
        "Definition 2 | forest | is acyclic"
    );
    assert_eq!(collect_word_op_text(&ops, &[]), "");
}

#[test]
fn textual_changes_ignore_white_space() {
    let space_only = vec![
        WordOp::Equal(tokens(&["a"])),
        WordOp::Insert(tokens(&[" "])),
    ];
    assert!(!has_textual_word_change(&space_only));
    assert!(has_meaningful_equal(&space_only));
    let real = vec![WordOp::Delete(tokens(&["x"]))];
    assert!(has_textual_word_change(&real));
    assert!(!has_meaningful_equal(&real));
    assert!(!has_meaningful_tokens(&tokens(&[" ", "\t"])));
    assert!(has_meaningful_tokens(&tokens(&[" ", "y"])));
}

#[test]
fn preview_joins_words_and_cuts() {
    assert_eq!(preview("  a\n b  "), "a b");
    let long = "word ".repeat(40);
    let p = preview(&long);
    assert_eq!(p.chars().count(), 123);
    assert!(p.ends_with("..."));
}

#[test]
fn debug_paths_follow_std_path_rules() {
    assert_eq!(default_debug_dir("out/diff.pdf"), "out/diff.debug");
    let dir = "out/diff.debug";
    assert!(pipeline_events_path(dir).ends_with("pipeline-events.jsonl"));
    assert!(pipeline_events_path(dir).starts_with(dir));
    assert!(rendered_region_frame_traces_path(dir).ends_with("rendered-region-frame-traces.jsonl"));
}

#[test]
fn modification_log_collapses_multiline_text_to_single_line() {
    let block = |text: &str| BlockContent {
        key: format!("text({text:?})"),
        text: text.to_string(),
    };
    let ops = match_edit_zones(diff_blocks_raw(&[block("Old\nvalue")], &[block("New\nvalue")]));
    assert_eq!(ops.len(), 1);
    let (old, new) = match &ops[0] {
        BlockOp::Replace(old, new) => (old, new),
        other => panic!("expected a replacement, got {other:?}"),
    };
    let mut old_tokens = Vec::new();
    collect_text_tokens(&old.content.text, &mut old_tokens);
    let mut new_tokens = Vec::new();
    collect_text_tokens(&new.content.text, &mut new_tokens);
    let word_ops = diff_words(&old_tokens, &new_tokens);
    let parts = vec![LoggedEdits {
        index: 0,
        edits: vec![EditLogContent::Modified {
            base: LogBase {
                text: new.content.text.clone(),
                is_figure_caption: false,
            },
            word_ops,
        }],
    }];
    let log = modification_log("typst-diff test", &parts);

    assert!(log.contains("block: New value"), "{log}");
    assert!(log.contains("deleted: Old"), "{log}");
    assert!(log.contains("inserted: New"), "{log}");
    assert!(!log.contains("Old\nvalue"), "{log}");
    assert!(!log.contains("New\nvalue"), "{log}");
}

#[test]
fn log_entries_skip_invisible_changes_and_recurse_into_nested_edits() {
    let nested = EditLogContent::Nested(vec![
        EditLogContent::Inserted("  \n".to_string()),
        EditLogContent::Deleted("gone".to_string()),
        EditLogContent::OpaqueReplacement,
    ]);
    let mut log = String::new();
    log_edit_content(&mut log, &nested, 4);
    assert_eq!(
        log,
        "## 4: delete\ntext: gone\n\n## 4: modify\nblock: [opaque visual content]\ndeleted: [old visual]\ninserted: [new visual]\n\n"
    );
    assert_eq!(edit_content_kind(&nested), "nested");
    assert_eq!(edit_content_kind(&EditLogContent::OpaqueReplacement), "opaque_replacement");
}

#[test]
fn caption_log_text_prefers_new_runs() {
    let ops = vec![
        WordOp::Equal(tokens(&["Figure"])),
        WordOp::Delete(tokens(&["old"])),
        WordOp::Insert(tokens(&["new"])),
    ];
    let caption = LogBase { text: "base".to_string(), is_figure_caption: true };
    assert_eq!(modified_block_log_text(&caption, &ops), "Figure | new");
    let plain = LogBase { text: "base".to_string(), is_figure_caption: false };
    assert_eq!(modified_block_log_text(&plain, &ops), "base");
    let modified_log = modification_log("x", &[]);
    assert_eq!(modified_log, "generated_by: x\n\n");
}

#[test]
fn word_op_summary_counts_tokens_and_characters() {
    let op = WordOp::Insert(tokens(&["café", " ", "au", " ", "lait"]));
    let summary = summarize_word_op(&op);
    assert_eq!(summary.kind, "insert");
    assert_eq!(summary.token_count, 5);
    assert_eq!(summary.text, "café au lait");
    assert_eq!(summary.text_len, 12);
    assert_eq!(summary.text_preview, "café au lait");
}

#[test]
fn trace_files_list_pipeline_events_and_frame_traces() {
    let files = trace_files("out/diff.debug", false);
    assert_eq!(files.len(), 2);
    assert!(files[0].path.ends_with("pipeline-events.jsonl"));
    assert_eq!(files[0].format, "typst-diff-pipeline-events");
    assert!(files[0].present);
    assert!(files[1].path.ends_with("rendered-region-frame-traces.jsonl"));
    assert_eq!(files[1].format, "typst-diff-rendered-region-frame-trace");
    assert!(!files[1].present);
}
