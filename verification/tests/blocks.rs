use typst_diff::blocks::{
    diff_block_units_raw, diff_blocks_raw, make_page_styles_sticky, match_edit_zones,
    pair_edit_zone, BlockContent, BlockOp, DiffBlock,
};

fn text_block(s: &str) -> BlockContent {
    BlockContent {
        key: format!("text({s})"),
        text: s.to_string(),
    }
}

fn styled(s: &str, page_styles: &str) -> DiffBlock {
    DiffBlock {
        content: text_block(s),
        page_styles: page_styles.to_string(),
    }
}

#[test]
fn identical_blocks_all_equal() {
    let a = vec![text_block("Hello"), text_block("World")];
    let b = a.clone();
    let ops = diff_blocks_raw(&a, &b);
    assert!(ops.iter().all(|op| matches!(op, BlockOp::Equal(_, _))));
}

#[test]
fn added_block_detected() {
    let old = vec![text_block("Only old")];
    let new = vec![text_block("Only old"), text_block("New block")];
    let ops = diff_blocks_raw(&old, &new);
    assert!(ops.iter().any(|op| matches!(op, BlockOp::Insert(_))));
}

#[test]
fn deleted_block_detected() {
    let old = vec![text_block("A"), text_block("B")];
    let new = vec![text_block("A")];
    let ops = diff_blocks_raw(&old, &new);
    assert!(ops.iter().any(|op| matches!(op, BlockOp::Delete(_))));
}

#[test]
fn similar_blocks_become_replace() {
    let old = vec![text_block("The quick brown fox jumps.")];
    let new = vec![text_block("The quick brown fox leaps.")];
    let raw = diff_blocks_raw(&old, &new);
    let ops = match_edit_zones(raw);
    assert!(ops.iter().any(|op| matches!(op, BlockOp::Replace(_, _))));
}

#[test]
fn dissimilar_blocks_stay_delete_insert() {
    let old = vec![text_block("Completely unrelated old content.")];
    let new = vec![text_block("xyz")];
    let raw = diff_blocks_raw(&old, &new);
    let ops = match_edit_zones(raw);
    assert!(ops.iter().any(|op| matches!(op, BlockOp::Delete(_))));
    assert!(ops.iter().any(|op| matches!(op, BlockOp::Insert(_))));
}

#[test]
fn match_edit_zones_pairs_best_similar_blocks() {
    let old = vec![
        text_block("Alpha beta gamma delta epsilon old zeta eta theta."),
        text_block("Completely different old paragraph."),
    ];
    let new = vec![
        text_block("Completely different new paragraph."),
        text_block("Alpha beta gamma delta epsilon new zeta eta theta."),
    ];

    let ops = match_edit_zones(diff_blocks_raw(&old, &new));

    assert!(ops.iter().any(|op| match op {
        BlockOp::Replace(old, new) => {
            old.content.text.contains("epsilon") && new.content.text.contains("epsilon")
        }
        _ => false,
    }));
}

#[test]
fn raw_diff_reads_back_both_sides() {
    let old = vec![text_block("a"), text_block("b"), text_block("c")];
    let new = vec![text_block("b"), text_block("d"), text_block("c")];
    let ops = diff_blocks_raw(&old, &new);
    let mut old_side = Vec::new();
    let mut new_side = Vec::new();
    for op in &ops {
        match op {
            BlockOp::Equal(a, b) | BlockOp::Replace(a, b) => {
                old_side.push(a.content.text.clone());
                new_side.push(b.content.text.clone());
            }
            BlockOp::Delete(a) => old_side.push(a.content.text.clone()),
            BlockOp::Insert(b) => new_side.push(b.content.text.clone()),
        }
    }
    assert_eq!(old_side, vec!["a", "b", "c"]);
    assert_eq!(new_side, vec!["b", "d", "c"]);
}

#[test]
fn pairing_prefers_the_later_of_equally_similar_inserts() {
    let deletes = vec![styled("abcd", "")];
    let inserts = vec![styled("abcx", ""), styled("abcy", "")];
    let mut out = Vec::new();
    pair_edit_zone(deletes, inserts, &mut out);
    assert_eq!(out.len(), 2);
    match &out[0] {
        BlockOp::Replace(old, new) => {
            assert_eq!(old.content.text, "abcd");
            assert_eq!(new.content.text, "abcy");
        }
        other => panic!("expected a replacement, got {other:?}"),
    }
    assert!(matches!(&out[1], BlockOp::Insert(b) if b.content.text == "abcx"));
}

#[test]
fn pairing_emits_unpaired_inserts_after_deletes() {
    let deletes = vec![styled("zzzz", ""), styled("hello world", "")];
    let inserts = vec![styled("qq", ""), styled("hello there world", "")];
    let mut out = Vec::new();
    pair_edit_zone(deletes, inserts, &mut out);
    assert!(matches!(&out[0], BlockOp::Delete(b) if b.content.text == "zzzz"));
    assert!(matches!(&out[1], BlockOp::Replace(a, b)
        if a.content.text == "hello world" && b.content.text == "hello there world"));
    assert!(matches!(&out[2], BlockOp::Insert(b) if b.content.text == "qq"));
}

#[test]
fn zone_of_only_inserts_stays_inserts() {
    let raw = diff_block_units_raw(&[], &[styled("new", "")]);
    let ops = match_edit_zones(raw);
    assert_eq!(ops.len(), 1);
    assert!(matches!(&ops[0], BlockOp::Insert(_)));
}

#[test]
fn page_styles_persist_across_sibling_blocks() {
    let mut blocks = vec![
        styled("a", ""),
        styled("b", "page(margin: 1cm)"),
        styled("c", ""),
        styled("d", "page(margin: 2cm)"),
        styled("e", ""),
    ];
    make_page_styles_sticky(&mut blocks);
    let styles: Vec<&str> = blocks.iter().map(|b| b.page_styles.as_str()).collect();
    assert_eq!(
        styles,
        vec!["", "page(margin: 1cm)", "page(margin: 1cm)", "page(margin: 2cm)", "page(margin: 2cm)"]
    );
    assert_eq!(blocks[2].content.text, "c");
}

#[test]
fn raw_block_diff_keeps_a_longest_common_subsequence() {
    let blocks = |names: &[&str]| names.iter().map(|n| text_block(n)).collect::<Vec<_>>();
    let old = blocks(&["a", "b", "c", "d", "e"]);
    let new = blocks(&["b", "a", "c", "x", "e", "d"]);
    let ops = diff_blocks_raw(&old, &new);
    let kept = ops.iter().filter(|op| matches!(op, BlockOp::Equal(_, _))).count();
    assert_eq!(kept, 3);
}
