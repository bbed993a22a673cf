use typst_diff::raw_lines::{diff_raw_block_lines, raw_block_lines, raw_line_tokens};
use typst_diff::text::typst_escape_content;
use typst_diff::tokens::{
    coalesce, collect_text_tokens, diff_words, merge_substitution_zones, text_token_kind,
    TextTokenKind, Token, WordOp,
};

fn extract_words(text: &str) -> Vec<Token> {
    let mut out = Vec::new();
    collect_text_tokens(text, &mut out);
    out
}

fn texts(tokens: &[Token]) -> Vec<&str> {
    tokens.iter().map(|t| t.text.as_str()).collect()
}

fn op_texts(op: &WordOp) -> String {
    op.tokens().iter().map(|t| t.text.as_str()).collect()
}

#[test]
fn changed_word_produces_delete_and_insert() {
    let old = extract_words("The quick brown fox jumps.");
    let new = extract_words("The quick brown fox leaps.");
    let ops = diff_words(&old, &new);
    assert!(
        ops.iter().any(|op| matches!(op, WordOp::Delete(_))),
        "expected delete op"
    );
    assert!(
        ops.iter().any(|op| matches!(op, WordOp::Insert(_))),
        "expected insert op"
    );
}

#[test]
fn identical_words_all_equal() {
    let tokens = extract_words("Hello world.");
    let ops = diff_words(&tokens, &tokens.clone());
    assert!(ops.iter().all(|op| matches!(op, WordOp::Equal(_))));
}

#[test]
fn sentence_substitution_merges_into_one_delete_one_insert() {
    let old = extract_words("The quick brown fox jumps.");
    let new = extract_words("A slow red dog leaps.");
    let ops = diff_words(&old, &new);
    let n_del = ops
        .iter()
        .filter(|op| matches!(op, WordOp::Delete(_)))
        .count();
    let n_ins = ops
        .iter()
        .filter(|op| matches!(op, WordOp::Insert(_)))
        .count();
    assert_eq!(n_del, 1, "expected exactly one merged Delete run");
    assert_eq!(n_ins, 1, "expected exactly one merged Insert run");
}

#[test]
fn partial_substitution_preserves_equal_words() {
    let old = extract_words("The fox jumps.");
    let new = extract_words("The fox leaps.");
    let ops = diff_words(&old, &new);
    let n_equal = ops
        .iter()
        .filter(|op| matches!(op, WordOp::Equal(_)))
        .count();
    let n_del = ops
        .iter()
        .filter(|op| matches!(op, WordOp::Delete(_)))
        .count();
    let n_ins = ops
        .iter()
        .filter(|op| matches!(op, WordOp::Insert(_)))
        .count();
    assert!(n_equal >= 1, "expected Equal ops for unchanged prefix");
    assert_eq!(n_del, 1);
    assert_eq!(n_ins, 1);
}

#[test]
fn extract_words_preserves_punctuation_with_non_whitespace_runs_and_unicode_words() {
    let tokens = extract_words("Hello, café 世界!");
    let texts = texts(&tokens);

    assert!(texts.contains(&"Hello"));
    assert!(texts.contains(&","));
    assert!(texts.contains(&"café"));
    assert!(texts.contains(&"世界"));
    assert!(texts.contains(&"!"));
}

#[test]
fn text_tokens_split_by_character_class() {
    let tokens = extract_words("a,,  b\t!");
    assert_eq!(texts(&tokens), vec!["a", ",,", "  ", "b", "\t", "!"]);
    assert!(tokens.iter().all(|t| t.presentation == "text"));
}

#[test]
fn text_tokens_carry_escaped_markup() {
    let tokens = extract_words("#x");
    assert_eq!(tokens[0].text, "#");
    assert_eq!(tokens[0].markup, "\\#");
    assert_eq!(tokens[0].render_markup, "\\#");
}

#[test]
fn text_token_kind_classes() {
    assert_eq!(text_token_kind(' '), TextTokenKind::Space);
    assert_eq!(text_token_kind('\u{3000}'), TextTokenKind::Space);
    assert_eq!(text_token_kind('.'), TextTokenKind::Punctuation);
    assert_eq!(text_token_kind('é'), TextTokenKind::Word);
    assert_eq!(text_token_kind('—'), TextTokenKind::Word);
}

#[test]
fn escape_content_escapes_markup_characters() {
    assert_eq!(typst_escape_content("a[b]#c\\d"), "a\\[b\\]\\#c\\\\d");
    assert_eq!(typst_escape_content(""), "");
}

#[test]
fn coalesce_merges_same_kind() {
    let mut ops = vec![WordOp::Delete(extract_words("a"))];
    coalesce(&mut ops, WordOp::Delete(extract_words("b")));
    coalesce(&mut ops, WordOp::Insert(extract_words("c")));
    assert_eq!(ops.len(), 2);
    assert_eq!(op_texts(&ops[0]), "ab");
    assert_eq!(op_texts(&ops[1]), "c");
}

#[test]
fn substitution_zone_copies_inner_space_and_keeps_trailing_space() {
    let ops = vec![
        WordOp::Delete(extract_words("old")),
        WordOp::Equal(extract_words(" ")),
        WordOp::Delete(extract_words("words")),
        WordOp::Insert(extract_words("new")),
        WordOp::Equal(extract_words(" ")),
        WordOp::Equal(extract_words("tail")),
    ];
    let merged = merge_substitution_zones(ops);
    assert_eq!(merged.len(), 4);
    assert!(matches!(&merged[0], WordOp::Delete(_)));
    assert_eq!(op_texts(&merged[0]), "old words");
    assert!(matches!(&merged[1], WordOp::Insert(_)));
    assert_eq!(op_texts(&merged[1]), " new");
    assert!(matches!(&merged[2], WordOp::Equal(_)));
    assert_eq!(op_texts(&merged[2]), " ");
    assert_eq!(op_texts(&merged[3]), "tail");
}

#[test]
fn raw_block_lines_drop_final_newline_only() {
    assert_eq!(raw_block_lines("a\nb\n"), vec!["a", "b"]);
    assert_eq!(raw_block_lines("a\n\n"), vec!["a", ""]);
    assert_eq!(raw_block_lines(""), vec![""]);
    assert_eq!(raw_block_lines("\n"), vec![""]);
}

#[test]
fn raw_line_tokens_are_plain_text() {
    let lines = vec!["let x = 1;".to_string(), "#y".to_string()];
    let tokens = raw_line_tokens(&lines);
    assert_eq!(texts(&tokens), vec!["let x = 1;", "#y"]);
    assert_eq!(tokens[1].markup, "\\#y");
}

#[test]
fn raw_line_diff_marks_changed_lines() {
    let ops = diff_raw_block_lines("a\nb\nc\n", "a\nB\nc\n");
    assert_eq!(ops.len(), 4);
    assert!(matches!(&ops[0], WordOp::Equal(t) if t.len() == 1));
    assert!(matches!(&ops[1], WordOp::Delete(_)));
    assert_eq!(op_texts(&ops[1]), "b");
    assert!(matches!(&ops[2], WordOp::Insert(_)));
    assert_eq!(op_texts(&ops[2]), "B");
    assert!(matches!(&ops[3], WordOp::Equal(_)));
}

#[test]
fn diff_words_never_leaves_two_runs_of_one_kind_side_by_side() {
    let old = extract_words("one two three four five");
    let new = extract_words("one 2 three 4 five six");
    let ops = diff_words(&old, &new);
    for pair in ops.windows(2) {
        assert_ne!(pair[0].kind(), pair[1].kind(), "{ops:?}");
    }
}

#[test]
fn identical_raw_blocks_give_one_equal_run_of_all_lines() {
    let text = "fn main() {\n    run();\n}\n";
    let ops = diff_raw_block_lines(text, text);
    assert_eq!(ops.len(), 1);
    assert!(matches!(&ops[0], WordOp::Equal(t) if t.len() == 3));
    assert_eq!(texts(ops[0].tokens()), vec!["fn main() {", "    run();", "}"]);
}

#[test]
fn diff_words_of_a_text_against_itself_is_one_equal_run() {
    let tokens = extract_words("Same words, same   spacing.");
    let ops = diff_words(&tokens, &tokens);
    assert_eq!(ops.len(), 1);
    assert!(matches!(&ops[0], WordOp::Equal(t) if t.len() == tokens.len()));
    assert!(diff_words(&[], &[]).is_empty());
}
