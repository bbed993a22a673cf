use typst_diff::block_extraction::{extract_blocks, BlockBase, BlockNode, LeafClass, PlannedBlock};

fn leaf(id: usize, class: LeafClass) -> BlockNode {
    BlockNode::Leaf { id, class }
}

fn describe(blocks: &[PlannedBlock]) -> Vec<String> {
    blocks
        .iter()
        .map(|b| {
            let base = match &b.base {
                BlockBase::Paragraph(ids) => format!("par{ids:?}"),
                BlockBase::ParagraphOf(id) => format!("par-of {id}"),
                BlockBase::Node(id) => format!("node {id}"),
            };
            format!("{base} wraps{:?} page{:?}", b.wraps, b.page_env)
        })
        .collect()
}

#[test]
fn inline_content_gathers_into_paragraphs_between_block_level_children() {
    let doc = BlockNode::Sequence {
        id: 0,
        children: vec![
            leaf(1, LeafClass::Inline),
            leaf(2, LeafClass::Space),
            leaf(3, LeafClass::Inline),
            leaf(4, LeafClass::Block),
            leaf(5, LeafClass::Space),
            leaf(6, LeafClass::Block),
            leaf(7, LeafClass::Inline),
        ],
    };
    assert_eq!(
        describe(&extract_blocks(&doc)),
        vec![
            "par[1, 2, 3] wraps[] page[]",
            "node 4 wraps[] page[]",
            "node 6 wraps[] page[]",
            "par[7] wraps[] page[]",
        ]
    );
}

#[test]
fn style_wrappers_push_their_styles_onto_the_blocks_inside() {
    let doc = BlockNode::Sequence {
        id: 0,
        children: vec![
            BlockNode::Styled { id: 1, page_updates: false, child: Box::new(leaf(2, LeafClass::Inline)) },
            BlockNode::Styled {
                id: 3,
                page_updates: true,
                child: Box::new(BlockNode::Sequence {
                    id: 4,
                    children: vec![leaf(5, LeafClass::Inline), leaf(6, LeafClass::Block), leaf(7, LeafClass::Inline)],
                }),
            },
            BlockNode::Styled {
                id: 8,
                page_updates: true,
                child: Box::new(BlockNode::Sequence { id: 9, children: vec![leaf(10, LeafClass::Inline)] }),
            },
        ],
    };
    assert_eq!(
        describe(&extract_blocks(&doc)),
        vec![
            "par[1] wraps[] page[]",
            "par[5] wraps[3] page[3]",
            "node 6 wraps[3] page[3]",
            "par[7] wraps[3] page[3]",
            "par-of 9 wraps[8] page[8]",
        ]
    );
}

#[test]
fn a_paragraph_of_spaces_only_is_dropped() {
    let doc = BlockNode::Sequence {
        id: 0,
        children: vec![leaf(1, LeafClass::Space), leaf(2, LeafClass::Block), leaf(3, LeafClass::Space)],
    };
    assert_eq!(describe(&extract_blocks(&doc)), vec!["node 2 wraps[] page[]"]);
    assert_eq!(describe(&extract_blocks(&leaf(9, LeafClass::Inline))), vec!["node 9 wraps[] page[]"]);
}
