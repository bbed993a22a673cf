use typst_diff::block_extraction::{extract_blocks, BlockBase, BlockNode, LeafClass};
use typst_diff::content_runs::{group_list_item_runs, GroupKind, RunChildKind};
use typst_diff::content_slots::{resolve_slot, slot_path_resolves, SlotShape, SlotStep};
use typst_diff::presentation::{presentation_key, KeyNode};
use typst_diff::tokens::{collect_text_tokens, Token};

fn leaf(id: usize, class: LeafClass) -> BlockNode {
    BlockNode::Leaf { id, class }
}

fn is_node(base: &BlockBase, id: usize) -> bool {
    matches!(base, BlockBase::Node(n) if *n == id)
}

#[test]
fn two_paragraphs_become_two_blocks() {
    // "First", a paragraph break (position 2), "Second".
    let content = BlockNode::Sequence {
        id: 0,
        children: vec![leaf(1, LeafClass::Inline), leaf(2, LeafClass::Block), leaf(3, LeafClass::Inline)],
    };
    let blocks = extract_blocks(&content);
    assert_eq!(blocks.iter().filter(|block| !is_node(&block.base, 2)).count(), 2);
}

#[test]
fn heading_is_own_block() {
    // A heading (position 1), a paragraph break (position 2), "Body".
    let content = BlockNode::Sequence {
        id: 0,
        children: vec![leaf(1, LeafClass::Block), leaf(2, LeafClass::Block), leaf(3, LeafClass::Inline)],
    };
    let blocks = extract_blocks(&content);
    assert_eq!(blocks.iter().filter(|block| !is_node(&block.base, 2)).count(), 2);
    assert!(is_node(&blocks[0].base, 1));
}

#[test]
fn text_elem_splits_into_words() {
    let mut tokens: Vec<Token> = Vec::new();
    collect_text_tokens("hello world foo", &mut tokens);
    let texts: Vec<&str> = tokens.iter().map(|t| t.text.as_str()).collect();
    assert!(texts.contains(&"hello"));
    assert!(texts.contains(&"world"));
    assert!(texts.contains(&"foo"));
}

#[test]
fn content_key_presentation_distinguishes_formatting_from_visible_text() {
    let plain = KeyNode::Atom("text".to_string());
    let emph = KeyNode::Wrap { label: "emph".to_string(), child: Box::new(KeyNode::Atom("text".to_string())) };
    assert_ne!(presentation_key(&plain), presentation_key(&emph));
}

#[test]
fn replace_slot_returns_none_for_invalid_paths() {
    // A list with one item.
    let content = SlotShape::List(1);
    assert!(resolve_slot(&content, &[]).is_none());
    assert!(resolve_slot(&content, &[SlotStep::ListItem(3)]).is_none());
    assert!(resolve_slot(&content, &[SlotStep::FigureCaption]).is_none());
    assert!(!slot_path_resolves(&content, &[SlotStep::ListItem(3)]));
}

#[test]
fn normalize_list_item_runs_groups_items_and_preserves_siblings() {
    // "Before", two list items, "After".
    let kinds = [RunChildKind::Other, RunChildKind::ListItem, RunChildKind::ListItem, RunChildKind::Other];
    let groups: Vec<(GroupKind, Vec<usize>)> =
        group_list_item_runs(&kinds).into_iter().map(|g| (g.kind, g.positions)).collect();
    assert_eq!(
        groups,
        vec![(GroupKind::Kept, vec![0]), (GroupKind::List, vec![1, 2]), (GroupKind::Kept, vec![3])]
    );
}
